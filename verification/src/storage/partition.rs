//! Sorting rows by a partition column, and the bounds of each chunk.
use vstd::prelude::*;

use crate::float64::Float64;
use crate::storage::table;

verus! {

/// Whether a pair comes no later than another: by its first number, then by its
/// second.
pub open spec fn pair_up_to(a: (u64, usize), b: (u64, usize)) -> bool {
    a.0 < b.0 || (a.0 == b.0 && a.1 <= b.1)
}

/// `<[T]>::sort` on pairs of integers, which std orders by the first and then by
/// the second: the same pairs, in ascending order.
#[verifier::external_body]
fn sort_pairs(v: &mut Vec<(u64, usize)>)
    ensures
        final(v)@.to_multiset() == old(v)@.to_multiset(),
        forall|i: int, j: int|
            0 <= i < j < final(v)@.len() ==> pair_up_to(
                #[trigger] final(v)@[i],
                #[trigger] final(v)@[j],
            ),
{
    v.sort();
}

/// The order that sorts rows by their positions, rows with equal positions staying
/// in the order they had.
pub fn sort_order(ranks: &Vec<u64>) -> (order: Vec<usize>)
    ensures
        table::sorting(order@, ranks@),
{
    let mut pairs: Vec<(u64, usize)> = Vec::new();
    let n: usize = ranks.len();
    let mut i: usize = 0;
    while i < n
        invariant
            n == ranks@.len(),
            i <= n,
            pairs@.len() == i,
            forall|k: int|
                0 <= k < i ==> #[trigger] pairs@[k] == (ranks@[k], k as usize),
        decreases n - i,
    {
        pairs.push((ranks[i], i));
        i += 1;
    }
    let ghost before = pairs@;
    sort_pairs(&mut pairs);
    proof {
        assert(before.no_duplicates()) by {
            assert forall|a: int, b: int| 0 <= a < before.len() && 0 <= b < before.len() && a
                != b implies before[a] != before[b] by {
                assert(before[a].1 != before[b].1);
            }
        }
        before.lemma_multiset_has_no_duplicates();
        pairs@.lemma_multiset_has_no_duplicates_conv();
        before.to_multiset_ensures();
        pairs@.to_multiset_ensures();
        assert forall|k: int| 0 <= k < pairs@.len() implies {
            let p = #[trigger] pairs@[k];
            p.1 < n && p.0 == ranks@[p.1 as int]
        } by {
            assert(pairs@.to_multiset().count(pairs@[k]) > 0);
            assert(before.contains(pairs@[k]));
            let j = before.index_of(pairs@[k]);
            assert(before[j] == pairs@[k]);
        }
    }
    let mut order: Vec<usize> = Vec::new();
    let mut k: usize = 0;
    while k < pairs.len()
        invariant
            k <= pairs@.len(),
            order@.len() == k,
            forall|x: int| 0 <= x < k ==> #[trigger] order@[x] == pairs@[x].1,
        decreases pairs@.len() - k,
    {
        order.push(pairs[k].1);
        k += 1;
    }
    proof {
        assert forall|a: int, b: int| 0 <= a < b < order@.len() implies order@[a] != order@[b] && {
            let x = #[trigger] order@[a];
            let y = #[trigger] order@[b];
            ||| ranks@[x as int] < ranks@[y as int]
            ||| ranks@[x as int] == ranks@[y as int] && x < y
        } by {
            assert(pairs@[a] != pairs@[b]);
            assert(pair_up_to(pairs@[a], pairs@[b]));
        }
        assert(order@.no_duplicates());
    }
    order
}

/// Where each row goes in a new order.
pub(crate) fn inverse(order: &Vec<usize>) -> (r: Vec<u32>)
    requires
        table::permutation(order@, order@.len()),
        order@.len() <= u32::MAX,
    ensures
        r@.len() == order@.len(),
        forall|k: int| 0 <= k < order@.len() ==> r@[#[trigger] order@[k] as int] == k,
{
    let n: usize = order.len();
    let mut r: Vec<u32> = Vec::new();
    let mut i: usize = 0;
    while i < n
        invariant
            i <= n,
            r@.len() == i,
        decreases n - i,
    {
        r.push(0);
        i += 1;
    }
    let mut k: usize = 0;
    while k < n
        invariant
            n == order@.len(),
            n <= u32::MAX,
            table::permutation(order@, n as nat),
            k <= n,
            r@.len() == n,
            forall|x: int| 0 <= x < k ==> r@[#[trigger] order@[x] as int] == x,
        decreases n - k,
    {
        r.set(order[k], k as u32);
        k += 1;
    }
    r
}

/// The first and the last key of each chunk.
pub(crate) fn zone_bounds(keys: &Vec<Float64>, chunk: usize) -> (r: Vec<(Float64, Float64)>)
    requires
        0 < chunk,
    ensures
        r@ == table::zones_of(keys@, chunk as nat),
{
    let n: usize = keys.len();
    let ghost all = table::zones_of(keys@, chunk as nat);
    let mut r: Vec<(Float64, Float64)> = Vec::new();
    let mut start: usize = 0;
    while start < n
        invariant
            n == keys@.len(),
            0 < chunk,
            all == table::zones_of(keys@, chunk as nat),
            start <= n,
            r@.len() <= all.len(),
            r@ == all.take(r@.len() as int),
            start < n ==> start == r@.len() * chunk,
            start == n ==> r@.len() == all.len(),
            n == 0 ==> all.len() == 0,
        decreases n - start,
    {
        let ghost c = r@.len() as int;
        let end: usize = if n - start > chunk {
            start + chunk
        } else {
            n
        };
        proof {
            lemma_chunk_end(n as nat, chunk as nat, c);
        }
        r.push((keys[start], keys[end - 1]));
        assert(r@ =~= all.take(c + 1));
        start = end;
    }
    assert(r@ =~= all);
    r
}

/// A chunk that starts at a row is one of the chunks, and where it ends.
pub proof fn lemma_chunk_end(rows: nat, chunk: nat, c: int)
    requires
        0 < chunk,
        0 <= c,
        c * chunk < rows,
    ensures
        c < table::chunks(rows, chunk),
        (c + 1) * chunk == c * chunk + chunk,
        (c + 1) * chunk >= rows ==> c + 1 == table::chunks(rows, chunk),
        (c + 1) * chunk < rows ==> c + 1 < table::chunks(rows, chunk),
{
    let q = rows / chunk;
    let m = rows % chunk;
    vstd::arithmetic::div_mod::lemma_fundamental_div_mod(rows as int, chunk as int);
    assert(0 <= m < chunk);
    assert((c + 1) * chunk == c * chunk + chunk) by (nonlinear_arith);
    assert(c * chunk < rows && rows == chunk * q + m && 0 <= m < chunk ==> c <= q && (m == 0 ==> c
        < q)) by (nonlinear_arith)
        requires
            0 < chunk,
    ;
    assert((c + 1) * chunk >= rows && rows == chunk * q + m && 0 <= m < chunk ==> c + 1 >= q && (m
        > 0 ==> c + 1 > q)) by (nonlinear_arith)
        requires
            0 < chunk,
    ;
    assert((c + 1) * chunk < rows && rows == chunk * q + m && 0 <= m < chunk ==> c + 1 <= q && (m
        == 0 ==> c + 1 < q)) by (nonlinear_arith)
        requires
            0 < chunk,
    ;
}

/// There are no more chunks than rows.
pub proof fn lemma_chunks_bound(rows: nat, chunk: nat)
    requires
        0 < chunk,
    ensures
        table::chunks(rows, chunk) <= rows,
{
    let q = rows / chunk;
    let m = rows % chunk;
    vstd::arithmetic::div_mod::lemma_fundamental_div_mod(rows as int, chunk as int);
    assert(rows == chunk * q + m && 0 <= m ==> q + m <= rows) by (nonlinear_arith)
        requires
            0 < chunk,
    ;
}

} // verus!
