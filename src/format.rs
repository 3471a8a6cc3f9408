//! Writing distance vectors and weight matrices as comma-separated text.
use vstd::prelude::*;
use crate::graph::rows_view;
use crate::edges::{COMMA, NEWLINE};

verus! {

/// The decimal digits of `n`, without leading zeros.
pub open spec fn decimal(n: nat) -> Seq<u8>
    decreases n,
{
    if n < 10 {
        seq![(48 + n) as u8]
    } else {
        decimal(n / 10).push((48 + n % 10) as u8)
    }
}

/// The numbers of `row` in decimal, joined by commas.
pub open spec fn join_row(row: Seq<u32>) -> Seq<u8>
    decreases row.len(),
{
    if row.len() == 0 {
        Seq::empty()
    } else if row.len() == 1 {
        decimal(row[0] as nat)
    } else {
        join_row(row.drop_last()) + seq![COMMA] + decimal(row.last() as nat)
    }
}

/// Each row of `m` as `join_row`, the rows separated by newlines.
pub open spec fn matrix_text(m: Seq<Seq<u32>>) -> Seq<u8>
    decreases m.len(),
{
    if m.len() == 0 {
        Seq::empty()
    } else if m.len() == 1 {
        join_row(m[0])
    } else {
        matrix_text(m.drop_last()) + seq![NEWLINE] + join_row(m.last())
    }
}

fn push_decimal(out: &mut Vec<u8>, n: u32)
    ensures
        final(out)@ == old(out)@ + decimal(n as nat),
    decreases n,
{
    if n >= 10 {
        push_decimal(out, n / 10);
    }
    out.push(48 + (n % 10) as u8);
    assert(n < 10 ==> decimal(n as nat) =~= seq![(48 + n) as u8]);
}

fn push_row(out: &mut Vec<u8>, row: &Vec<u32>)
    ensures
        final(out)@ == old(out)@ + join_row(row@),
{
    let ghost start = out@;
    let mut i: usize = 0;
    assert(row@.take(0) =~= Seq::<u32>::empty());
    assert(out@ =~= start + join_row(row@.take(0)));
    while i < row.len()
        invariant
            i <= row.len(),
            out@ == start + join_row(row@.take(i as int)),
        decreases row.len() - i,
    {
        let ghost before = out@;
        assert(row@.take(i as int + 1).drop_last() =~= row@.take(i as int));
        if i > 0 {
            out.push(COMMA);
        }
        push_decimal(out, row[i]);
        assert(out@ =~= start + join_row(row@.take(i as int + 1)));
        i += 1;
    }
    assert(row@.take(row.len() as int) =~= row@);
}

/// A distance vector as one line of comma-separated decimal numbers, with
/// `UNREACHABLE` written as its value.
pub fn format_distance_list(distance_list: &Vec<u32>) -> (r: Vec<u8>)
    ensures
        r@ == join_row(distance_list@),
{
    let mut out: Vec<u8> = Vec::new();
    push_row(&mut out, distance_list);
    assert(out@ =~= join_row(distance_list@));
    out
}

/// A weight matrix as text: each row as comma-separated decimal numbers,
/// one row per line, with a newline between rows and none after the last.
pub fn format_adjacency_matrix(adjacency_matrix: &Vec<Vec<u32>>) -> (r: Vec<u8>)
    ensures
        r@ == matrix_text(rows_view(adjacency_matrix@)),
{
    let ghost m = rows_view(adjacency_matrix@);
    let mut out: Vec<u8> = Vec::new();
    let mut i: usize = 0;
    assert(m.take(0) =~= Seq::<Seq<u32>>::empty());
    while i < adjacency_matrix.len()
        invariant
            m == rows_view(adjacency_matrix@),
            i <= adjacency_matrix.len(),
            out@ == matrix_text(m.take(i as int)),
        decreases adjacency_matrix.len() - i,
    {
        assert(m.take(i as int + 1).drop_last() =~= m.take(i as int));
        if i > 0 {
            out.push(NEWLINE);
        }
        push_row(&mut out, &adjacency_matrix[i]);
        assert(out@ =~= matrix_text(m.take(i as int + 1)));
        i += 1;
    }
    assert(m.take(adjacency_matrix.len() as int) =~= m);
    out
}

} // verus!
