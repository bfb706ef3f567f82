//! The edge-list loader: a graph from the rows of a comma-separated table.

use crate::graph::{edges_applied, no_edges, Graph};
use vstd::prelude::*;

verus! {

/// Why an edge list was refused.
#[derive(Clone, Copy, Debug, PartialEq, Eq, Structural)]
pub enum EdgeListError {
    /// A row cannot be read, has fewer than two fields, or one of its first
    /// two fields is no number that fits into a `usize`.
    Parse,
    /// A vertex index is so large that the number of vertices does not fit
    /// into a `usize`.
    IndexOutOfRange,
}

/// `csv::Error`, the error of the crate `csv`: it is carried from the
/// reader to `graph_from_records` and never looked into.
#[verifier::external_type_specification]
#[verifier::external_body]
pub struct ExCsvError(csv::Error);

/// The records that the crate `csv` reads from `data`, first to last: the
/// fields of each record as bytes, or nothing for a record that it refuses.
/// With `has_headers` the first row is no record.
pub uninterp spec fn csv_records(data: Seq<u8>, has_headers: bool) -> Seq<Option<Seq<Seq<u8>>>>;

/// What a list of records read holds: the fields of each record, or nothing
/// for a refused one.
pub open spec fn records_of(rows: Seq<Result<Vec<Vec<u8>>, csv::Error>>) -> Seq<
    Option<Seq<Seq<u8>>>,
> {
    Seq::new(
        rows.len(),
        |k: int|
            match rows[k] {
                Ok(fields) => Some(fields.deep_view()),
                Err(_) => None,
            },
    )
}

/// `csv::ReaderBuilder::has_headers`, `csv::ReaderBuilder::from_reader` and
/// `csv::Reader::into_records`: every record that the reader yields, with
/// its fields copied to bytes, or the reader's error for it. The records
/// depend on the bytes and on `has_headers` alone.
#[verifier::external_body]
fn read_records(data: &[u8], has_headers: bool) -> (rows: Vec<Result<Vec<Vec<u8>>, csv::Error>>)
    ensures
        records_of(rows@) == csv_records(data@, has_headers),
{
    csv::ReaderBuilder::new()
        .has_headers(has_headers)
        .from_reader(data)
        .into_records()
        .map(|row| row.map(|record| record.iter().map(|field| field.as_bytes().to_vec()).collect()))
        .collect()
}

/// The value of a string of decimal digits.
pub open spec fn digits_value(digits: Seq<u8>) -> nat
    decreases digits.len(),
{
    if digits.len() == 0 {
        0
    } else {
        digits_value(digits.drop_last()) * 10 + (digits.last() - 48) as nat
    }
}

/// Every byte is one of the digits `0` to `9`.
pub open spec fn all_digits(digits: Seq<u8>) -> bool {
    forall|i: int| 0 <= i < digits.len() ==> 48 <= #[trigger] digits[i] <= 57
}

/// A field without its leading `+`, if it has one.
pub open spec fn unsigned_part(field: Seq<u8>) -> Seq<u8> {
    if field.len() > 0 && field[0] == 43 {
        field.skip(1)
    } else {
        field
    }
}

/// The index that a field stands for: an optional `+` and then one or more
/// decimal digits, whose value fits into a `usize`. Anything else stands
/// for nothing.
pub open spec fn parsed_index(field: Seq<u8>) -> Option<usize> {
    let digits = unsigned_part(field);
    if digits.len() > 0 && all_digits(digits) && digits_value(digits) <= usize::MAX {
        Some(digits_value(digits) as usize)
    } else {
        None
    }
}

/// The value of a string of digits is at least that of each of its
/// beginnings.
pub proof fn lemma_digits_grow(digits: Seq<u8>, k: int)
    requires
        all_digits(digits),
        0 <= k <= digits.len(),
    ensures
        digits_value(digits.take(k)) <= digits_value(digits),
        k < digits.len() ==> digits_value(digits.take(k + 1)) == digits_value(digits.take(k)) * 10
            + (digits[k] - 48),
    decreases digits.len() - k,
{
    if k < digits.len() {
        assert(digits.take(k + 1).drop_last() =~= digits.take(k));
        lemma_digits_grow(digits, k + 1);
    } else {
        assert(digits.take(k) =~= digits);
    }
}

/// Reads a vertex index from a field.
pub fn parse_index(field: &[u8]) -> (index: Option<usize>)
    ensures
        index == parsed_index(field@),
{
    let start: usize = if field.len() > 0 && field[0] == 43 {
        1
    } else {
        0
    };
    let ghost digits = unsigned_part(field@);
    if start == field.len() {
        return None;
    }
    let mut value: usize = 0;
    let mut i: usize = start;
    proof {
        assert(digits.take(0) =~= Seq::<u8>::empty());
    }
    while i < field.len()
        invariant
            start <= i <= field.len(),
            digits == unsigned_part(field@),
            digits.len() == field.len() - start,
            forall|k: int| 0 <= k < digits.len() ==> digits[k] == field@[k + start],
            all_digits(digits.take(i - start)),
            value == digits_value(digits.take(i - start)),
        decreases field.len() - i,
    {
        let byte = field[i];
        if byte < 48 || byte > 57 {
            assert(!(48 <= digits[i - start] <= 57));
            return None;
        }
        proof {
            assert forall|k: int| 0 <= k < digits.take(i + 1 - start).len() implies 48
                <= #[trigger] digits.take(i + 1 - start)[k] <= 57 by {
                if k < i - start {
                    assert(digits.take(i - start)[k] == digits[k]);
                }
            }
            if all_digits(digits) {
                lemma_digits_grow(digits, i - start);
                lemma_digits_grow(digits, i + 1 - start);
            } else {
                assert(digits.take(i + 1 - start).drop_last() =~= digits.take(i - start));
            }
        }
        let digit: usize = (byte - 48) as usize;
        if value > (usize::MAX - digit) / 10 {
            assert(all_digits(digits) ==> digits_value(digits) > usize::MAX);
            return None;
        }
        value = value * 10 + digit;
        i += 1;
    }
    proof {
        assert(digits.take(i - start) =~= digits);
    }
    Some(value)
}

/// The edge that a record stands for: its first two fields, read as
/// indices. A refused record, one with fewer than two fields, and one
/// whose first or second field is no index stand for nothing.
pub open spec fn row_edge(record: Option<Seq<Seq<u8>>>) -> Option<(usize, usize)> {
    match record {
        Some(fields) => if fields.len() >= 2 {
            match (parsed_index(fields[0]), parsed_index(fields[1])) {
                (Some(src), Some(dest)) => Some((src, dest)),
                _ => None,
            }
        } else {
            None
        },
        None => None,
    }
}

/// Every record stands for an edge.
pub open spec fn all_rows_parse(records: Seq<Option<Seq<Seq<u8>>>>) -> bool {
    forall|k: int| 0 <= k < records.len() ==> (#[trigger] row_edge(records[k])) is Some
}

/// The edges that the records stand for, in their order.
pub open spec fn rows_edges(records: Seq<Option<Seq<Seq<u8>>>>) -> Seq<(usize, usize)> {
    Seq::new(records.len(), |k: int| row_edge(records[k]).unwrap())
}

/// The largest endpoint of a list of edges, and 0 for the empty list.
pub open spec fn max_index(edges: Seq<(usize, usize)>) -> nat
    decreases edges.len(),
{
    if edges.len() == 0 {
        0
    } else {
        let rest = max_index(edges.drop_last());
        let src = edges.last().0 as nat;
        let dest = edges.last().1 as nat;
        if rest >= src && rest >= dest {
            rest
        } else if src >= dest {
            src
        } else {
            dest
        }
    }
}

/// What loading a list of records gives: the graph on the vertices 0 to
/// the largest index read, with one edge for each record; or the reason
/// why there is none.
pub open spec fn loaded(
    records: Seq<Option<Seq<Seq<u8>>>>,
    res: Result<Graph, EdgeListError>,
) -> bool {
    let edges = rows_edges(records);
    match res {
        Ok(graph) => {
            &&& all_rows_parse(records)
            &&& max_index(edges) < usize::MAX
            &&& graph.wf()
            &&& graph.vertices == max_index(edges) + 1
            &&& graph@ == edges_applied(no_edges(max_index(edges) + 1), edges)
        },
        Err(EdgeListError::Parse) => !all_rows_parse(records),
        Err(EdgeListError::IndexOutOfRange) => all_rows_parse(records) && max_index(edges)
            == usize::MAX,
    }
}

/// No endpoint of a list of edges is above its largest.
pub proof fn lemma_max_index_bounds(edges: Seq<(usize, usize)>, k: int)
    requires
        0 <= k < edges.len(),
    ensures
        edges[k].0 <= max_index(edges),
        edges[k].1 <= max_index(edges),
    decreases edges.len(),
{
    if k < edges.len() - 1 {
        lemma_max_index_bounds(edges.drop_last(), k);
    }
}

/// The graph of the records of a table: every record gives one edge,
/// between the indices in its first two fields, and the vertices are those
/// from 0 to the largest index.
pub fn graph_from_records(rows: &Vec<Result<Vec<Vec<u8>>, csv::Error>>) -> (res: Result<
    Graph,
    EdgeListError,
>)
    ensures
        loaded(records_of(rows@), res),
{
    let ghost records = records_of(rows@);
    let mut edgelist: Vec<(usize, usize)> = Vec::new();
    let mut max_node_index: usize = 0;
    let mut k: usize = 0;
    proof {
        assert(rows_edges(records.take(0)) =~= Seq::<(usize, usize)>::empty());
    }
    while k < rows.len()
        invariant
            k <= rows.len(),
            records == records_of(rows@),
            all_rows_parse(records.take(k as int)),
            edgelist@ == rows_edges(records.take(k as int)),
            max_node_index == max_index(edgelist@),
        decreases rows.len() - k,
    {
        let ghost record = records[k as int];
        let edge = match &rows[k] {
            Ok(fields) => {
                if fields.len() < 2 {
                    None
                } else {
                    assert(fields.deep_view()[0] == fields@[0]@);
                    assert(fields.deep_view()[1] == fields@[1]@);
                    match (parse_index(fields[0].as_slice()), parse_index(fields[1].as_slice())) {
                        (Some(src), Some(dest)) => Some((src, dest)),
                        _ => None,
                    }
                }
            },
            Err(_) => None,
        };
        assert(edge == row_edge(record));
        match edge {
            Some((src, dest)) => {
                if src > max_node_index {
                    max_node_index = src;
                }
                if dest > max_node_index {
                    max_node_index = dest;
                }
                edgelist.push((src, dest));
                proof {
                    let longer = records.take(k + 1);
                    assert(rows_edges(longer).drop_last() =~= rows_edges(records.take(k as int)));
                    assert(longer[k as int] == record);
                    assert(edgelist@ =~= rows_edges(longer));
                    assert forall|j: int| 0 <= j < longer.len() implies (#[trigger] row_edge(
                        longer[j],
                    )) is Some by {
                        if j < k {
                            assert(longer[j] == records.take(k as int)[j]);
                        }
                    }
                }
            },
            None => {
                return Err(EdgeListError::Parse);
            },
        }
        k += 1;
    }
    proof {
        assert(records.take(k as int) =~= records);
    }
    if max_node_index == usize::MAX {
        return Err(EdgeListError::IndexOutOfRange);
    }
    let vertices = max_node_index + 1;
    proof {
        assert forall|j: int| 0 <= j < edgelist@.len() implies (#[trigger] edgelist@[j]).0
            < vertices && edgelist@[j].1 < vertices by {
            lemma_max_index_bounds(edgelist@, j);
        }
    }
    match Graph::from_edgelist(edgelist, vertices) {
        Ok(graph) => Ok(graph),
        Err(_) => Err(EdgeListError::IndexOutOfRange),
    }
}

/// The graph that a comma-separated table describes: every row gives one
/// edge, between the indices in its first two columns; further columns are
/// not read. With `has_headers` the first row is skipped.
pub fn read_edgelist(data: &[u8], has_headers: bool) -> (res: Result<Graph, EdgeListError>)
    ensures
        loaded(csv_records(data@, has_headers), res),
{
    let rows = read_records(data, has_headers);
    graph_from_records(&rows)
}

} // verus!
