//! Reading an edge list (`i,j,weight` per line) into a weight matrix.
use vstd::prelude::*;
use crate::graph::{rows_view, is_square, is_symmetric};

verus! {

pub const NEWLINE: u8 = 10;
pub const CARRIAGE_RETURN: u8 = 13;
pub const COMMA: u8 = 44;

/// One edge record: two node ids and a weight.
pub type Edge = (u32, u32, u32);

/// Why an edge list was rejected. `line` counts the lines from 0.
#[derive(Debug, Clone, Copy, PartialEq, Eq, Structural)]
pub enum LoadError {
    /// The line is not three unsigned decimal numbers joined by commas.
    MalformedEdge { line: usize },
    /// The record `i,j,weight` on this line names a node id at or above the
    /// node count.
    OutOfRange { line: usize, i: u32, j: u32, weight: u32 },
}

/// The pieces of `t` between occurrences of `sep`; there is always at least one.
pub open spec fn split_on(t: Seq<u8>, sep: u8) -> Seq<Seq<u8>>
    decreases t.len(),
{
    if t.len() == 0 {
        seq![Seq::empty()]
    } else {
        let p = split_on(t.drop_last(), sep);
        if t.last() == sep {
            p.push(Seq::empty())
        } else {
            p.update(p.len() - 1, p.last().push(t.last()))
        }
    }
}

/// A line without its trailing carriage return, if it has one.
pub open spec fn strip_cr(l: Seq<u8>) -> Seq<u8> {
    if l.len() > 0 && l.last() == CARRIAGE_RETURN {
        l.drop_last()
    } else {
        l
    }
}

/// The lines of `t`: split at newlines, a final empty piece dropped, and a
/// carriage return taken off the end of each line.
pub open spec fn text_lines(t: Seq<u8>) -> Seq<Seq<u8>> {
    let p = split_on(t, NEWLINE);
    let full = if p.last().len() == 0 { p.drop_last() } else { p };
    full.map_values(|l: Seq<u8>| strip_cr(l))
}

pub open spec fn is_digit(b: u8) -> bool {
    48 <= b <= 57
}

/// The number that a string of decimal digits writes.
pub open spec fn decimal_value(s: Seq<u8>) -> int
    decreases s.len(),
{
    if s.len() == 0 {
        0
    } else {
        decimal_value(s.drop_last()) * 10 + (s.last() - 48)
    }
}

/// `s` is one or more decimal digits whose value fits in a `u32`.
pub open spec fn is_u32_field(s: Seq<u8>) -> bool {
    &&& s.len() > 0
    &&& forall|i: int| 0 <= i < s.len() ==> is_digit(#[trigger] s[i])
    &&& decimal_value(s) <= u32::MAX
}

/// The record that a line holds, if it is three `u32` fields joined by commas.
pub open spec fn parse_record(line: Seq<u8>) -> Option<Edge> {
    let f = split_on(line, COMMA);
    if f.len() == 3 && is_u32_field(f[0]) && is_u32_field(f[1]) && is_u32_field(f[2]) {
        Some((decimal_value(f[0]) as u32, decimal_value(f[1]) as u32, decimal_value(f[2]) as u32))
    } else {
        None
    }
}

/// The record of each line of `t`, or `None` for a line that holds none.
pub open spec fn parsed_lines(t: Seq<u8>) -> Seq<Option<Edge>> {
    text_lines(t).map_values(|l: Seq<u8>| parse_record(l))
}

/// Every line holds a record.
pub open spec fn all_parsed(recs: Seq<Option<Edge>>) -> bool {
    forall|i: int| 0 <= i < recs.len() ==> (#[trigger] recs[i]) is Some
}

/// `v` lists the record of each line.
pub open spec fn records_of(recs: Seq<Option<Edge>>, v: Seq<Edge>) -> bool {
    &&& v.len() == recs.len()
    &&& forall|i: int| 0 <= i < v.len() ==> recs[i] == Some(#[trigger] v[i])
}

/// `e` names the first line that holds no record.
pub open spec fn first_malformed(recs: Seq<Option<Edge>>, e: LoadError) -> bool {
    match e {
        LoadError::MalformedEdge { line } => {
            &&& line < recs.len()
            &&& recs[line as int] is None
            &&& forall|j: int| 0 <= j < line ==> (#[trigger] recs[j]) is Some
        },
        LoadError::OutOfRange { .. } => false,
    }
}

pub open spec fn pieces_view(v: Seq<Vec<u8>>) -> Seq<Seq<u8>> {
    v.map_values(|x: Vec<u8>| x@)
}

proof fn lemma_split_nonempty(t: Seq<u8>, sep: u8)
    ensures
        split_on(t, sep).len() >= 1,
    decreases t.len(),
{
    if t.len() > 0 {
        lemma_split_nonempty(t.drop_last(), sep);
    }
}

/// Splits `bytes` at every `sep`.
fn split_bytes(bytes: &Vec<u8>, sep: u8) -> (r: Vec<Vec<u8>>)
    ensures
        pieces_view(r@) == split_on(bytes@, sep),
{
    let mut pieces: Vec<Vec<u8>> = Vec::new();
    let mut current: Vec<u8> = Vec::new();
    let mut i: usize = 0;
    assert(bytes@.take(0) =~= Seq::<u8>::empty());
    assert(pieces_view(pieces@).push(current@) =~= seq![Seq::<u8>::empty()]);
    while i < bytes.len()
        invariant
            i <= bytes.len(),
            pieces_view(pieces@).push(current@) == split_on(bytes@.take(i as int), sep),
        decreases bytes.len() - i,
    {
        let ghost before = split_on(bytes@.take(i as int), sep);
        assert(bytes@.take(i as int + 1).drop_last() =~= bytes@.take(i as int));
        let b = bytes[i];
        if b == sep {
            pieces.push(current);
            current = Vec::new();
            assert(pieces_view(pieces@).push(current@) =~= before.push(Seq::empty()));
        } else {
            current.push(b);
            assert(pieces_view(pieces@).push(current@) =~= before.update(before.len() - 1, before.last().push(b)));
        }
        i += 1;
    }
    assert(bytes@.take(bytes.len() as int) =~= bytes@);
    pieces.push(current);
    assert(pieces_view(pieces@) =~= split_on(bytes@, sep));
    pieces
}

proof fn lemma_decimal_grows(s: Seq<u8>, i: int)
    requires
        0 <= i <= s.len(),
        forall|k: int| 0 <= k < s.len() ==> is_digit(#[trigger] s[k]),
    ensures
        decimal_value(s.take(i)) <= decimal_value(s),
    decreases s.len(),
{
    if i < s.len() {
        let t = s.drop_last();
        assert(t.take(i) =~= s.take(i));
        assert forall|k: int| 0 <= k < t.len() implies is_digit(#[trigger] t[k]) by {
            assert(is_digit(s[k]));
        }
        lemma_decimal_grows(t, i);
        lemma_decimal_nonneg(t);
    } else {
        assert(s.take(i) =~= s);
    }
}

proof fn lemma_decimal_nonneg(s: Seq<u8>)
    requires
        forall|k: int| 0 <= k < s.len() ==> is_digit(#[trigger] s[k]),
    ensures
        decimal_value(s) >= 0,
    decreases s.len(),
{
    if s.len() > 0 {
        let t = s.drop_last();
        assert forall|k: int| 0 <= k < t.len() implies is_digit(#[trigger] t[k]) by {
            assert(is_digit(s[k]));
        }
        lemma_decimal_nonneg(t);
        assert(is_digit(s[s.len() - 1]));
    }
}

/// Reads a field of decimal digits as a `u32`.
fn parse_u32_field(s: &Vec<u8>) -> (r: Option<u32>)
    ensures
        r == (if is_u32_field(s@) { Some(decimal_value(s@) as u32) } else { None::<u32> }),
{
    if s.len() == 0 {
        return None;
    }
    let mut value: u64 = 0;
    let mut i: usize = 0;
    while i < s.len()
        invariant
            i <= s.len(),
            forall|k: int| 0 <= k < i ==> is_digit(#[trigger] s@[k]),
            value as int == decimal_value(s@.take(i as int)),
            value <= u32::MAX,
        decreases s.len() - i,
    {
        assert(s@.take(i as int + 1).drop_last() =~= s@.take(i as int));
        let b = s[i];
        if b < 48 || b > 57 {
            return None;
        }
        value = value * 10 + (b - 48) as u64;
        if value > 0xffff_ffff {
            proof {
                if forall|k: int| 0 <= k < s.len() ==> is_digit(#[trigger] s@[k]) {
                    lemma_decimal_grows(s@, i as int + 1);
                }
            }
            return None;
        }
        i += 1;
    }
    assert(s@.take(s.len() as int) =~= s@);
    Some(value as u32)
}

/// Reads one line as an edge record.
fn parse_line(line: &Vec<u8>) -> (r: Option<Edge>)
    ensures
        r == parse_record(line@),
{
    let fields = split_bytes(line, COMMA);
    if fields.len() != 3 {
        return None;
    }
    assert(fields[0]@ == split_on(line@, COMMA)[0]);
    assert(fields[1]@ == split_on(line@, COMMA)[1]);
    assert(fields[2]@ == split_on(line@, COMMA)[2]);
    let i = parse_u32_field(&fields[0]);
    let j = parse_u32_field(&fields[1]);
    let w = parse_u32_field(&fields[2]);
    match (i, j, w) {
        (Some(i), Some(j), Some(w)) => Some((i, j, w)),
        _ => None,
    }
}

/// Reads an edge list, one `i,j,weight` record per line, where each field is
/// one or more decimal digits. A final newline ends the last line, and a
/// carriage return before a newline is dropped.
///
/// Fails with `MalformedEdge` at the first line that is not such a record.
pub fn parse_edge_list(text: &Vec<u8>) -> (r: Result<Vec<Edge>, LoadError>)
    ensures
        all_parsed(parsed_lines(text@)) <==> (r is Ok),
        r matches Ok(v) ==> records_of(parsed_lines(text@), v@),
        r matches Err(e) ==> first_malformed(parsed_lines(text@), e),
{
    let pieces = split_bytes(text, NEWLINE);
    let ghost p = split_on(text@, NEWLINE);
    proof {
        lemma_split_nonempty(text@, NEWLINE);
    }
    let mut count = pieces.len();
    if pieces[count - 1].len() == 0 {
        count = count - 1;
    }
    let ghost lines = text_lines(text@);
    let ghost recs = parsed_lines(text@);
    assert(lines.len() == count);
    assert forall|k: int| 0 <= k < count implies #[trigger] lines[k] == strip_cr(pieces[k]@) by {
        assert(pieces[k]@ == p[k]);
    }
    let mut edges: Vec<Edge> = Vec::new();
    let mut k: usize = 0;
    while k < count
        invariant
            k <= count,
            count <= pieces.len(),
            lines.len() == count,
            lines == text_lines(text@),
            recs == parsed_lines(text@),
            forall|m: int| 0 <= m < count ==> #[trigger] lines[m] == strip_cr(pieces[m]@),
            edges.len() == k,
            forall|m: int| 0 <= m < k ==> recs[m] == Some(#[trigger] edges[m]),
        decreases count - k,
    {
        let piece = &pieces[k];
        let mut line: Vec<u8> = piece.clone();
        assert(line@ =~= piece@);
        if line.len() > 0 && line[line.len() - 1] == CARRIAGE_RETURN {
            line.pop();
        }
        assert(line@ =~= lines[k as int]);
        match parse_line(&line) {
            Some(e) => {
                edges.push(e);
            },
            None => {
                assert(recs[k as int] is None);
                assert forall|j: int| 0 <= j < k implies (#[trigger] recs[j]) is Some by {
                    assert(recs[j] == Some(edges[j]));
                }
                return Err(LoadError::MalformedEdge { line: k });
            },
        }
        k += 1;
    }
    assert forall|j: int| 0 <= j < recs.len() implies (#[trigger] recs[j]) is Some by {
        assert(recs[j] == Some(edges[j]));
    }
    Ok(edges)
}

/// The records of an edge list whose every line holds one.
pub open spec fn edge_records(t: Seq<u8>) -> Seq<Edge> {
    parsed_lines(t).map_values(|o: Option<Edge>| o->0)
}

/// The `n` by `n` matrix with no edge.
pub open spec fn empty_matrix(n: nat) -> Seq<Seq<u32>> {
    Seq::new(n, |i: int| Seq::new(n, |j: int| 0u32))
}

/// `m` with `W[i][j] = W[j][i] = weight` for the edge `(i, j, weight)`.
pub open spec fn set_edge(m: Seq<Seq<u32>>, e: Edge) -> Seq<Seq<u32>> {
    let m1 = m.update(e.0 as int, m[e.0 as int].update(e.1 as int, e.2));
    m1.update(e.1 as int, m1[e.1 as int].update(e.0 as int, e.2))
}

/// The matrix that the edges give, set one after another on the empty
/// matrix: where two edges join the same nodes, the later one stands.
pub open spec fn edge_matrix(edges: Seq<Edge>, n: nat) -> Seq<Seq<u32>>
    decreases edges.len(),
{
    if edges.len() == 0 {
        empty_matrix(n)
    } else {
        set_edge(edge_matrix(edges.drop_last(), n), edges.last())
    }
}

/// Both node ids of the edge are below `n`.
pub open spec fn edge_in_range(e: Edge, n: u32) -> bool {
    e.0 < n && e.1 < n
}

pub open spec fn all_in_range(edges: Seq<Edge>, n: u32) -> bool {
    forall|i: int| 0 <= i < edges.len() ==> edge_in_range(#[trigger] edges[i], n)
}

/// `e` names, and carries, the first edge with a node id out of range.
pub open spec fn first_out_of_range(edges: Seq<Edge>, n: u32, e: LoadError) -> bool {
    match e {
        LoadError::OutOfRange { line, i, j, weight } => {
            &&& line < edges.len()
            &&& (i, j, weight) == edges[line as int]
            &&& !edge_in_range(edges[line as int], n)
            &&& forall|j: int| 0 <= j < line ==> edge_in_range(#[trigger] edges[j], n)
        },
        LoadError::MalformedEdge { .. } => false,
    }
}

/// The matrix of edges in range is square and symmetric.
pub proof fn lemma_edge_matrix_well_formed(edges: Seq<Edge>, n: u32)
    requires
        all_in_range(edges, n),
    ensures
        edge_matrix(edges, n as nat).len() == n,
        is_square(edge_matrix(edges, n as nat)),
        is_symmetric(edge_matrix(edges, n as nat)),
    decreases edges.len(),
{
    if edges.len() > 0 {
        let prev = edges.drop_last();
        assert(all_in_range(prev, n)) by {
            assert forall|i: int| 0 <= i < prev.len() implies edge_in_range(#[trigger] prev[i], n) by {
                assert(edge_in_range(edges[i], n));
            }
        }
        lemma_edge_matrix_well_formed(prev, n);
        assert(edge_in_range(edges[edges.len() - 1], n));
        let m = edge_matrix(edges, n as nat);
        let m0 = edge_matrix(prev, n as nat);
        assert forall|i: int| 0 <= i < m.len() implies #[trigger] m[i].len() == m.len() by {
            assert(m0[i].len() == m0.len());
        }
        assert forall|i: int, j: int| 0 <= i < m.len() && 0 <= j < m.len() implies #[trigger] m[i][j] == m[j][i] by {
            assert(m0[i][j] == m0[j][i]);
        }
    } else {
        let m = edge_matrix(edges, n as nat);
        assert(is_square(m));
        assert(is_symmetric(m));
    }
}

/// Builds the weight matrix of `size` nodes from edge records: for each
/// record `(i, j, weight)`, in order, `W[i][j] = W[j][i] = weight`.
///
/// Fails with `OutOfRange` at the first record whose node id is not below
/// `size`.
pub fn build_adjacency_matrix(edges: &Vec<Edge>, size: u32) -> (r: Result<Vec<Vec<u32>>, LoadError>)
    ensures
        all_in_range(edges@, size) <==> (r is Ok),
        r matches Ok(m) ==> rows_view(m@) == edge_matrix(edges@, size as nat),
        r matches Ok(m) ==> is_square(rows_view(m@)) && is_symmetric(rows_view(m@)),
        r matches Err(e) ==> first_out_of_range(edges@, size, e),
{
    let mut k: usize = 0;
    while k < edges.len()
        invariant
            k <= edges.len(),
            forall|j: int| 0 <= j < k ==> edge_in_range(#[trigger] edges[j], size),
        decreases edges.len() - k,
    {
        let (i, j, weight) = edges[k];
        if i >= size || j >= size {
            return Err(LoadError::OutOfRange { line: k, i, j, weight });
        }
        k += 1;
    }
    let n = size as usize;
    let mut matrix: Vec<Vec<u32>> = Vec::new();
    while matrix.len() < n
        invariant
            n == size,
            matrix.len() <= n,
            forall|a: int| 0 <= a < matrix.len() ==> #[trigger] matrix[a]@ == Seq::new(n as nat, |j: int| 0u32),
        decreases n - matrix.len(),
    {
        let mut row: Vec<u32> = Vec::new();
        while row.len() < n
            invariant
                row.len() <= n,
                forall|b: int| 0 <= b < row.len() ==> row[b] == 0,
            decreases n - row.len(),
        {
            row.push(0);
        }
        assert(row@ =~= Seq::new(n as nat, |j: int| 0u32));
        matrix.push(row);
    }
    assert(rows_view(matrix@) =~= empty_matrix(n as nat));
    assert(edges@.take(0) =~= Seq::<Edge>::empty());
    let mut k: usize = 0;
    while k < edges.len()
        invariant
            n == size,
            k <= edges.len(),
            all_in_range(edges@, size),
            all_in_range(edges@.take(k as int), size),
            rows_view(matrix@) == edge_matrix(edges@.take(k as int), size as nat),
        decreases edges.len() - k,
    {
        proof {
            lemma_edge_matrix_well_formed(edges@.take(k as int), size);
            assert(edges@.take(k as int + 1).drop_last() =~= edges@.take(k as int));
            assert(edge_in_range(edges[k as int], size));
            assert(all_in_range(edges@.take(k as int + 1), size)) by {
                assert forall|i: int| 0 <= i < k + 1 implies edge_in_range(#[trigger] edges@.take(k as int + 1)[i], size) by {
                    assert(edge_in_range(edges[i], size));
                }
            }
        }
        let (i, j, weight) = edges[k];
        let ghost m0 = rows_view(matrix@);
        assert(m0[i as int].len() == n);
        assert(m0[j as int].len() == n);
        matrix[i as usize][j as usize] = weight;
        matrix[j as usize][i as usize] = weight;
        assert(rows_view(matrix@) =~= set_edge(m0, (i, j, weight)));
        k += 1;
    }
    assert(edges@.take(edges.len() as int) =~= edges@);
    proof {
        lemma_edge_matrix_well_formed(edges@, size);
    }
    Ok(matrix)
}

/// Reads an edge list and builds the weight matrix of `size` nodes from it.
///
/// Fails with `MalformedEdge` at the first line that holds no record, and
/// otherwise with `OutOfRange` at the first record whose node id is not
/// below `size`.
pub fn load_adjacency_matrix(text: &Vec<u8>, size: u32) -> (r: Result<Vec<Vec<u32>>, LoadError>)
    ensures
        !all_parsed(parsed_lines(text@)) ==> (r matches Err(e) && first_malformed(parsed_lines(text@), e)),
        all_parsed(parsed_lines(text@)) ==> (all_in_range(edge_records(text@), size) <==> (r is Ok)),
        all_parsed(parsed_lines(text@)) ==> (r matches Err(e) ==> first_out_of_range(edge_records(text@), size, e)),
        r matches Ok(m) ==> rows_view(m@) == edge_matrix(edge_records(text@), size as nat),
        r matches Ok(m) ==> is_square(rows_view(m@)) && is_symmetric(rows_view(m@)),
{
    match parse_edge_list(text) {
        Err(e) => Err(e),
        Ok(edges) => {
            assert(edges@ =~= edge_records(text@)) by {
                assert forall|i: int| 0 <= i < edges.len() implies edges@[i] == #[trigger] edge_records(text@)[i] by {
                    assert(parsed_lines(text@)[i] == Some(edges@[i]));
                }
            }
            build_adjacency_matrix(&edges, size)
        },
    }
}

} // verus!
