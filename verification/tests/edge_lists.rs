use mygraph::loader::{graph_from_records, parse_index, read_edgelist, EdgeListError};

fn fields(row: &[&str]) -> Vec<Vec<u8>> {
    row.iter().map(|field| field.as_bytes().to_vec()).collect()
}

fn refused() -> csv::Error {
    csv::Error::from(std::io::Error::new(std::io::ErrorKind::InvalidData, "refused"))
}

#[test]
fn index_of_plain_digits() {
    assert_eq!(parse_index(b"0"), Some(0));
    assert_eq!(parse_index(b"42"), Some(42));
    assert_eq!(parse_index(b"007"), Some(7));
    assert_eq!(parse_index(b"+7"), Some(7));
    assert_eq!(parse_index(b"1234567890"), Some(1234567890));
}

#[test]
fn index_of_anything_else_is_nothing() {
    assert_eq!(parse_index(b""), None);
    assert_eq!(parse_index(b"+"), None);
    assert_eq!(parse_index(b"-1"), None);
    assert_eq!(parse_index(b"-0"), None);
    assert_eq!(parse_index(b"++1"), None);
    assert_eq!(parse_index(b"1a"), None);
    assert_eq!(parse_index(b"a1"), None);
    assert_eq!(parse_index(b" 1"), None);
    assert_eq!(parse_index(b"1 "), None);
    assert_eq!(parse_index(b"1.0"), None);
    assert_eq!(parse_index(b"1_000"), None);
}

#[test]
fn index_agrees_with_the_standard_parser() {
    let samples = [
        "0", "9", "10", "+10", "-10", "", "+", "x", "12x", "000", "4294967295", "4294967296",
        "18446744073709551615", "18446744073709551616", "99999999999999999999999999",
        "18446744073709551615x",
    ];
    for sample in samples {
        assert_eq!(parse_index(sample.as_bytes()), sample.parse::<usize>().ok());
    }
}

#[test]
fn index_at_the_limit() {
    let largest = usize::MAX.to_string();
    assert_eq!(parse_index(largest.as_bytes()), Some(usize::MAX));
    let mut longer = largest.clone();
    longer.push('0');
    assert_eq!(parse_index(longer.as_bytes()), None);
}

#[test]
fn table_with_a_header() {
    let graph = read_edgelist(b"source,target\n0,1\n1,2\n", true).unwrap();
    assert_eq!(graph.vertices, 3);
    assert_eq!(graph.adj_list, vec![vec![1], vec![0, 2], vec![1]]);
}

#[test]
fn table_without_a_header() {
    let graph = read_edgelist(b"0,1\n1,2\n", false).unwrap();
    assert_eq!(graph.vertices, 3);
    assert_eq!(graph.adj_list, vec![vec![1], vec![0, 2], vec![1]]);
}

#[test]
fn first_row_is_skipped_as_a_header() {
    let graph = read_edgelist(b"0,1\n1,2\n", true).unwrap();
    assert_eq!(graph.vertices, 3);
    assert_eq!(graph.adj_list, vec![vec![], vec![2], vec![1]]);
}

#[test]
fn header_read_as_a_row_is_a_parse_error() {
    let refused = read_edgelist(b"source,target\n0,1\n", false);
    assert!(matches!(refused, Err(EdgeListError::Parse)));
}

#[test]
fn further_columns_are_not_read() {
    let graph = read_edgelist(b"a,b,weight\n0,1,heavy\n1,3,\n", true).unwrap();
    assert_eq!(graph.vertices, 4);
    assert_eq!(graph.adj_list, vec![vec![1], vec![0, 3], vec![], vec![1]]);
}

#[test]
fn vertex_count_is_one_more_than_the_largest_index() {
    let graph = read_edgelist(b"7,2\n", false).unwrap();
    assert_eq!(graph.vertices, 8);
    assert_eq!(graph.degree(), vec![0, 0, 1, 0, 0, 0, 0, 1]);
}

#[test]
fn empty_table_gives_one_vertex() {
    let graph = read_edgelist(b"", true).unwrap();
    assert_eq!(graph.vertices, 1);
    assert_eq!(graph.adj_list, vec![Vec::<usize>::new()]);
    let graph = read_edgelist(b"source,target\n", true).unwrap();
    assert_eq!(graph.vertices, 1);
}

#[test]
fn non_numeric_field_is_a_parse_error() {
    assert!(matches!(read_edgelist(b"0,1\nx,2\n", false), Err(EdgeListError::Parse)));
    assert!(matches!(read_edgelist(b"0,1\n1,-2\n", false), Err(EdgeListError::Parse)));
    assert!(matches!(read_edgelist(b"0, 1\n", false), Err(EdgeListError::Parse)));
    assert!(matches!(read_edgelist(b"0,1.5\n", false), Err(EdgeListError::Parse)));
}

#[test]
fn row_with_one_field_is_a_parse_error() {
    assert!(matches!(read_edgelist(b"0\n1\n", false), Err(EdgeListError::Parse)));
}

#[test]
fn row_of_another_length_is_a_parse_error() {
    assert!(matches!(read_edgelist(b"0,1\n1,2,3\n", false), Err(EdgeListError::Parse)));
}

#[test]
fn row_that_is_no_text_is_a_parse_error() {
    assert!(matches!(read_edgelist(b"0,1,\xff\n", false), Err(EdgeListError::Parse)));
}

#[test]
fn quoted_fields_are_read_without_their_quotes() {
    let graph = read_edgelist(b"\"0\",\"2\"\r\n\"2\",\"1\"\r\n", false).unwrap();
    assert_eq!(graph.adj_list, vec![vec![2], vec![2], vec![0, 1]]);
}

#[test]
fn index_too_large_for_a_vertex_count() {
    let table = format!("0,{}\n", usize::MAX);
    assert!(matches!(
        read_edgelist(table.as_bytes(), false),
        Err(EdgeListError::IndexOutOfRange)
    ));
    let table = format!("0,{}0\n", usize::MAX);
    assert!(matches!(read_edgelist(table.as_bytes(), false), Err(EdgeListError::Parse)));
}

#[test]
fn parse_error_comes_before_the_index_error() {
    let table = format!("0,{}\nx,1\n", usize::MAX);
    assert!(matches!(read_edgelist(table.as_bytes(), false), Err(EdgeListError::Parse)));
}

#[test]
fn graph_from_records_read() {
    let rows = vec![Ok(fields(&["0", "1"])), Ok(fields(&["+2", "01", "x"]))];
    let graph = graph_from_records(&rows).unwrap();
    assert_eq!(graph.vertices, 3);
    assert_eq!(graph.adj_list, vec![vec![1], vec![0, 2], vec![1]]);
}

#[test]
fn graph_from_no_record() {
    let graph = graph_from_records(&Vec::new()).unwrap();
    assert_eq!(graph.vertices, 1);
}

#[test]
fn refused_record_is_a_parse_error() {
    let rows = vec![Ok(fields(&["0", "1"])), Err(refused()), Ok(fields(&["1", "2"]))];
    assert!(matches!(graph_from_records(&rows), Err(EdgeListError::Parse)));
}

#[test]
fn short_record_is_a_parse_error() {
    let rows = vec![Ok(fields(&["0"]))];
    assert!(matches!(graph_from_records(&rows), Err(EdgeListError::Parse)));
    let rows = vec![Ok(fields(&[]))];
    assert!(matches!(graph_from_records(&rows), Err(EdgeListError::Parse)));
}
