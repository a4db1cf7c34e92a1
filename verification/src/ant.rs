use vstd::prelude::*;
use crate::errors::AcoError;
use crate::matrix::Matrix;
use crate::tally::{
    count_true, lemma_count_true_all, lemma_count_true_bounds, lemma_count_true_missing,
    lemma_count_true_update, lemma_seq_sum_element, lemma_seq_sum_nonneg, lemma_seq_sum_push,
    seq_sum,
};
use crate::weight::{edge_weight, reinforcement_of, weight_of};

verus! {

/// The nodes a walk visits, in order: the first edge's tail, then every
/// edge's head.
pub open spec fn nodes_of(s: Seq<(usize, usize)>) -> Seq<usize> {
    if s.len() == 0 {
        Seq::empty()
    } else {
        seq![s[0].0] + s.map_values(|e: (usize, usize)| e.1)
    }
}

/// Consecutive edges share a node: each edge starts where the previous
/// one ended.
pub open spec fn connected(s: Seq<(usize, usize)>) -> bool {
    forall|k: int| 0 <= k < s.len() - 1 ==> (#[trigger] s[k]).1 == s[k + 1].0
}

/// Every endpoint lies below `n`.
pub open spec fn edges_in_range(s: Seq<(usize, usize)>, n: nat) -> bool {
    forall|k: int| 0 <= k < s.len() ==> (#[trigger] s[k]).0 < n && s[k].1 < n
}

/// Every node below `n` occurs in the walk.
pub open spec fn covers_all(s: Seq<usize>, n: nat) -> bool {
    forall|v: usize| v < n ==> s.contains(v)
}

/// An open Hamiltonian path over `n` nodes: `n - 1` connected edges
/// visiting each node exactly once (trivially empty for `n <= 1`).
pub open spec fn valid_tour(s: Seq<(usize, usize)>, n: nat) -> bool {
    &&& s.len() == if n <= 1 { 0int } else { n - 1 }
    &&& connected(s)
    &&& edges_in_range(s, n)
    &&& nodes_of(s).no_duplicates()
    &&& n >= 2 ==> covers_all(nodes_of(s), n)
}

/// Selection weight of the step from `i` to `j`, with staying in place
/// masked out.
pub open spec fn masked_weight(dist: Matrix, pher: Matrix, i: int, j: int) -> int {
    if i == j {
        0
    } else {
        weight_of(dist.at(i, j), pher.at(i, j))
    }
}

/// Sum of the masked selection weights of row `i`, over columns below `k`.
pub open spec fn row_weight_sum(dist: Matrix, pher: Matrix, i: int, k: nat) -> int
    decreases k,
{
    if k == 0 {
        0
    } else {
        row_weight_sum(dist, pher, i, (k - 1) as nat) + masked_weight(dist, pher, i, k - 1)
    }
}

/// The sampler cannot run out of candidates: every step weight is
/// positive and every row of weights sums within the value type.
pub open spec fn weights_ok(dist: Matrix, pher: Matrix) -> bool {
    let n = dist.dim();
    &&& forall|i: int, j: int|
        0 <= i < n && 0 <= j < n && i != j ==> masked_weight(dist, pher, i, j) > 0
    &&& forall|i: int| 0 <= i < n ==> row_weight_sum(dist, pher, i, n) <= u64::MAX
}

/// Every edge of the walk carried a positive selection weight when it
/// was drawn: no step's choice was fabricated out of nothing.
pub open spec fn tour_weights_positive(dist: Matrix, pher: Matrix, s: Seq<(usize, usize)>) -> bool {
    forall|k: int|
        0 <= k < s.len() ==> masked_weight(
            dist,
            pher,
            (#[trigger] s[k]).0 as int,
            s[k].1 as int,
        ) > 0
}

/// Relies on rand's `random_range`: the result is drawn from the given
/// half-open range, which must not be empty.
#[verifier::external_body]
fn random_below(n: usize) -> (r: usize)
    requires
        n > 0,
    ensures
        r < n,
{
    rand::random_range(0..n)
}

/// Relies on `WeightedIndex` (of rand, re-exported by rand_distr):
/// construction fails only on an empty, negative, all-zero or overflowing
/// weight vector, and sampling returns an index of the vector, never one
/// holding a zero weight.
#[verifier::external_body]
fn draw_weighted(weights: &Vec<u64>) -> (r: usize)
    requires
        weights@.len() > 0,
        0 < seq_sum(weights@) <= u64::MAX,
    ensures
        r < weights@.len(),
        weights@[r as int] > 0,
{
    let dist = rand_distr::weighted::WeightedIndex::new(weights.iter()).unwrap();
    rand::distr::Distribution::sample(&dist, &mut rand::rng())
}

/// Draw one randomized tour: starting from a uniformly random node, walk
/// to a weighted-random unvisited node until every node is visited.
///
/// Succeeds whenever no selection step can run dry (`weights_ok`); fails
/// with `NoReachableNode` when the unvisited candidates of some step
/// carry zero total weight, or their total leaves the value type.
pub fn sample_tour(dist: &Matrix, pher: &Matrix) -> (r: Result<Vec<(usize, usize)>, AcoError>)
    requires
        dist.wf(),
        pher.wf(),
        pher.dim() == dist.dim(),
    ensures
        match r {
            Ok(t) => valid_tour(t@, dist.dim()) && tour_weights_positive(*dist, *pher, t@),
            Err(e) => e == AcoError::NoReachableNode,
        },
        weights_ok(*dist, *pher) ==> r is Ok,
        dist.dim() <= 1 ==> r is Ok,
{
    let n = dist.size();
    if n <= 1 {
        return Ok(Vec::new());
    }
    let start = random_below(n);
    let mut visited: Vec<bool> = vec![false; n];
    let mut order: Vec<usize> = Vec::new();
    let mut edges: Vec<(usize, usize)> = Vec::new();
    let mut cur = start;
    visited[cur] = true;
    order.push(cur);
    proof {
        lemma_count_true_update(Seq::new(n as nat, |k: int| false), cur as int);
        assert(count_true(visited@) == 1) by {
            assert(visited@ =~= Seq::new(n as nat, |k: int| false).update(cur as int, true));
            assert(count_true(Seq::new(n as nat, |k: int| false)) == 0) by {
                lemma_count_true_zero(Seq::new(n as nat, |k: int| false));
            }
        }
        assert(order@ =~= seq![cur]);
        assert forall|v: usize| v < n implies (visited@[v as int] <==> order@.contains(v)) by {
            if order@.contains(v) {
                let k = choose|k: int| 0 <= k < order@.len() && order@[k] == v;
                assert(v == cur);
            }
            if visited@[v as int] {
                assert(v == cur);
                assert(order@[0] == v);
            }
        }
    }
    while order.len() < n
        invariant
            dist.wf(),
            pher.wf(),
            pher.dim() == dist.dim(),
            n == dist.dim(),
            2 <= n,
            visited@.len() == n,
            1 <= order@.len() <= n,
            cur < n,
            order@.last() == cur,
            count_true(visited@) == order@.len(),
            forall|v: usize| v < n ==> (visited@[v as int] <==> order@.contains(v)),
            order@.no_duplicates(),
            forall|k: int| 0 <= k < order@.len() ==> order@[k] < n,
            edges@.len() == order@.len() - 1,
            edges_in_range(edges@, n as nat),
            connected(edges@),
            edges@.len() > 0 ==> edges@.last().1 == cur,
            nodes_of(edges@) =~= if edges@.len() == 0 { Seq::<usize>::empty() } else { order@ },
            tour_weights_positive(*dist, *pher, edges@),
        decreases n - order@.len(),
    {
        let ghost prev_edges = edges@;
        let ghost prev_order = order@;
        let mut w: Vec<u64> = Vec::new();
        let mut total: u128 = 0;
        let mut j: usize = 0;
        while j < n
            invariant
                dist.wf(),
                pher.wf(),
                pher.dim() == dist.dim(),
                n == dist.dim(),
                cur < n,
                visited@.len() == n,
                visited@[cur as int],
                j <= n,
                w@.len() == j,
                total == seq_sum(w@),
                total <= row_weight_sum(*dist, *pher, cur as int, j as nat),
                forall|t: int|
                    0 <= t < j ==> w@[t] == if visited@[t] {
                        0int
                    } else {
                        weight_of(dist.at(cur as int, t), pher.at(cur as int, t))
                    },
            decreases n - j,
        {
            let wj: u64 = if visited[j] {
                0
            } else {
                edge_weight(dist.get(cur, j), pher.get(cur, j))
            };
            proof {
                lemma_seq_sum_push(w@, wj);
                assert(total + wj <= u128::MAX) by {
                    lemma_seq_sum_nonneg(w@);
                    assert(seq_sum(w@) <= (j as int) * (u64::MAX as int)) by {
                        lemma_row_sum_partial_bound(w@);
                    }
                    assert((j as int) * (u64::MAX as int) + u64::MAX < u128::MAX)
                        by (nonlinear_arith)
                        requires j as int <= u64::MAX,
                    ;
                }
                crate::weight::lemma_weight_of_nonneg(dist.at(cur as int, j as int), pher.at(cur as int, j as int));
                assert(wj as int <= masked_weight(*dist, *pher, cur as int, j as int));
            }
            total = total + (wj as u128);
            w.push(wj);
            j = j + 1;
        }
        if total == 0 || total > (u64::MAX as u128) {
            proof {
                if weights_ok(*dist, *pher) {
                    lemma_count_true_bounds(visited@);
                    let k = lemma_count_true_missing(visited@);
                    assert(w@[k] == weight_of(dist.at(cur as int, k), pher.at(cur as int, k)));
                    assert(k != cur);
                    assert(masked_weight(*dist, *pher, cur as int, k) > 0);
                    assert(w@[k] > 0);
                    lemma_seq_sum_element(w@, k);
                    assert(false);
                }
            }
            return Err(AcoError::NoReachableNode);
        }
        let next = draw_weighted(&w);
        proof {
            assert(!visited@[next as int]);
            assert(!order@.contains(next));
            lemma_count_true_update(visited@, next as int);
        }
        let ghost prev_visited = visited@;
        edges.push((cur, next));
        visited[next] = true;
        order.push(next);
        proof {
            assert(order@.no_duplicates()) by {
                assert(forall|k: int|
                    0 <= k < prev_order.len() ==> order@[k] == prev_order[k]);
                assert(forall|k: int| 0 <= k < prev_order.len() ==> prev_order[k] != next);
            }
            assert(nodes_of(edges@) =~= order@) by {
                lemma_nodes_of_push(prev_edges, (cur, next), prev_order);
            }
            assert(tour_weights_positive(*dist, *pher, edges@)) by {
                assert(w@[next as int] == weight_of(
                    dist.at(cur as int, next as int),
                    pher.at(cur as int, next as int),
                ));
                assert(next != cur);
                assert(masked_weight(*dist, *pher, cur as int, next as int) > 0);
                assert(forall|k: int|
                    0 <= k < prev_edges.len() ==> edges@[k] == prev_edges[k]);
                assert(edges@[edges@.len() - 1] == (cur, next));
            }
            assert forall|v: usize| v < n implies (visited@[v as int] <==> order@.contains(v)) by {
                if order@.contains(v) {
                    let k = choose|k: int| 0 <= k < order@.len() && order@[k] == v;
                    if k < order@.len() - 1 {
                        assert(prev_order[k] == v);
                        assert(prev_order.contains(v));
                    } else {
                        assert(v == next);
                    }
                }
                if visited@[v as int] {
                    if v == next {
                        assert(order@[order@.len() - 1] == v);
                    } else {
                        assert(prev_visited[v as int]);
                        assert(prev_order.contains(v));
                        let k = choose|k: int| 0 <= k < prev_order.len() && prev_order[k] == v;
                        assert(order@[k] == v);
                    }
                }
            }
        }
        cur = next;
    }
    proof {
        lemma_count_true_all(visited@);
        assert(covers_all(nodes_of(edges@), n as nat)) by {
            assert(forall|v: usize| v < n ==> visited@[v as int]);
        }
    }
    Ok(edges)
}

/// The two edges join the same unordered node pair.
pub open spec fn same_pair(e: (usize, usize), f: (usize, usize)) -> bool {
    (e.0 == f.0 && e.1 == f.1) || (e.0 == f.1 && e.1 == f.0)
}

/// No two edges join the same unordered node pair.
pub open spec fn distinct_undirected(s: Seq<(usize, usize)>) -> bool {
    forall|k1: int, k2: int| 0 <= k1 < k2 < s.len() ==> !same_pair(s[k1], s[k2])
}

/// Pheromone laid by a walk on the cell `[a][b]`: the reinforcement of
/// the traversed edge through `a` and `b`, or zero if the walk does not
/// traverse that pair.
pub open spec fn contribution_at(nodes: Matrix, s: Seq<(usize, usize)>, a: usize, b: usize) -> int {
    if s.contains((a, b)) {
        reinforcement_of(nodes.at(a as int, b as int))
    } else if s.contains((b, a)) {
        reinforcement_of(nodes.at(b as int, a as int))
    } else {
        0
    }
}

/// `m` is exactly the pheromone laid by the walk `s` over distances `nodes`.
pub open spec fn contribution_matches(nodes: Matrix, s: Seq<(usize, usize)>, m: Matrix) -> bool {
    forall|a: usize, b: usize|
        a < m.dim() && b < m.dim() ==> #[trigger] m.at(a as int, b as int) == contribution_at(
            nodes,
            s,
            a,
            b,
        )
}

/// A connected walk without repeated nodes traverses each unordered
/// node pair at most once.
pub proof fn lemma_tour_edges_distinct(s: Seq<(usize, usize)>)
    requires
        connected(s),
        nodes_of(s).no_duplicates(),
    ensures
        distinct_undirected(s),
{
    if s.len() > 0 {
        let nodes = nodes_of(s);
        let heads = s.map_values(|e: (usize, usize)| e.1);
        assert(nodes.len() == s.len() + 1);
        assert forall|k: int| 0 <= k < s.len() implies (#[trigger] s[k]).0 == nodes[k]
            && s[k].1 == nodes[k + 1] by {
            assert(heads[k] == s[k].1);
            assert(nodes[k + 1] == heads[k]);
            if k > 0 {
                assert(nodes[k] == heads[k - 1]);
                assert(s[k - 1].1 == s[k].0);
            }
        }
        assert forall|k1: int, k2: int| 0 <= k1 < k2 < s.len() implies !same_pair(
            s[k1],
            s[k2],
        ) by {
            assert(s[k1].0 == nodes[k1] && s[k1].1 == nodes[k1 + 1]);
            assert(s[k2].0 == nodes[k2] && s[k2].1 == nodes[k2 + 1]);
        }
    }
}

/// Write the pheromone contribution of the walk `edges` into a fresh
/// matrix: the reinforcement of each traversed edge, symmetrically, and
/// zero everywhere else.
pub fn contribution_matrix(nodes: &Matrix, edges: &Vec<(usize, usize)>) -> (r: Matrix)
    requires
        nodes.wf(),
        edges_in_range(edges@, nodes.dim()),
        distinct_undirected(edges@),
    ensures
        r.wf(),
        r.dim() == nodes.dim(),
        contribution_matches(*nodes, edges@, r),
        r.is_symmetric(),
{
    let n = nodes.size();
    proof {
        nodes.lemma_square_fits();
    }
    let mut m = Matrix::zeros(n);
    let mut k: usize = 0;
    proof {
        assert(edges@.subrange(0, 0) =~= Seq::<(usize, usize)>::empty());
    }
    while k < edges.len()
        invariant
            nodes.wf(),
            n == nodes.dim(),
            edges_in_range(edges@, n as nat),
            distinct_undirected(edges@),
            k <= edges@.len(),
            m.wf(),
            m.dim() == n,
            contribution_matches(*nodes, edges@.subrange(0, k as int), m),
        decreases edges@.len() - k,
    {
        let (a, b) = edges[k];
        let ghost prefix = edges@.subrange(0, k as int);
        let ghost prev = m;
        let v = crate::weight::edge_reinforcement(nodes.get(a, b));
        m.set_sym(a, b, v);
        proof {
            let longer = edges@.subrange(0, k as int + 1);
            assert(longer =~= prefix.push((a, b)));
            assert forall|x: usize, y: usize| x < n && y < n implies #[trigger] m.at(
                x as int,
                y as int,
            ) == contribution_at(*nodes, longer, x, y) by {
                lemma_contains_push(prefix, (a, b), (x, y));
                lemma_contains_push(prefix, (a, b), (y, x));
                if x == a && y == b {
                } else if x == b && y == a {
                    if !(a == b) {
                        assert(!prefix.contains((b, a)) && !prefix.contains((a, b))) by {
                            if prefix.contains((b, a)) {
                                let t = choose|t: int|
                                    0 <= t < prefix.len() && prefix[t] == (b, a);
                                assert(same_pair(edges@[t], edges@[k as int]));
                            }
                            if prefix.contains((a, b)) {
                                let t = choose|t: int|
                                    0 <= t < prefix.len() && prefix[t] == (a, b);
                                assert(same_pair(edges@[t], edges@[k as int]));
                            }
                        }
                    }
                } else {
                    assert(m.at(x as int, y as int) == prev.at(x as int, y as int));
                }
            }
        }
        k = k + 1;
    }
    proof {
        assert(edges@.subrange(0, edges@.len() as int) =~= edges@);
        assert forall|i: int, j: int| m.in_range(i, j) implies m.at(i, j) == m.at(j, i) by {
            let a = i as usize;
            let b = j as usize;
            assert(m.at(a as int, b as int) == contribution_at(*nodes, edges@, a, b));
            assert(m.at(b as int, a as int) == contribution_at(*nodes, edges@, b, a));
            if edges@.contains((a, b)) && edges@.contains((b, a)) && a != b {
                let t1 = choose|t: int| 0 <= t < edges@.len() && edges@[t] == (a, b);
                let t2 = choose|t: int| 0 <= t < edges@.len() && edges@[t] == (b, a);
                if t1 < t2 {
                    assert(same_pair(edges@[t1], edges@[t2]));
                } else {
                    assert(same_pair(edges@[t2], edges@[t1]));
                }
                assert(false);
            }
        }
    }
    m
}

/// Membership in a sequence extended by one element.
proof fn lemma_contains_push(s: Seq<(usize, usize)>, e: (usize, usize), q: (usize, usize))
    ensures
        s.push(e).contains(q) <==> (s.contains(q) || q == e),
{
    if s.push(e).contains(q) {
        let t = choose|t: int| 0 <= t < s.push(e).len() && s.push(e)[t] == q;
        if t < s.len() {
            assert(s[t] == q);
        }
    }
    if s.contains(q) {
        let t = choose|t: int| 0 <= t < s.len() && s[t] == q;
        assert(s.push(e)[t] == q);
    }
    if q == e {
        assert(s.push(e)[s.len() as int] == q);
    }
}

/// One sampling pass: draw one randomized tour biased by the previous
/// field and return the pheromone it lays, written symmetrically.
pub fn get_pheramones(nodes: &Matrix, prev_pheramones: &Matrix) -> (r: Result<Matrix, AcoError>)
    requires
        nodes.wf(),
        prev_pheramones.wf(),
        prev_pheramones.dim() == nodes.dim(),
    ensures
        match r {
            Ok(m) => {
                &&& m.wf()
                &&& m.dim() == nodes.dim()
                &&& m.is_symmetric()
                &&& exists|t: Seq<(usize, usize)>|
                    #[trigger] valid_tour(t, nodes.dim()) && contribution_matches(*nodes, t, m)
                        && tour_weights_positive(*nodes, *prev_pheramones, t)
            },
            Err(e) => e == AcoError::NoReachableNode,
        },
        weights_ok(*nodes, *prev_pheramones) ==> r is Ok,
        nodes.dim() <= 1 ==> r is Ok,
{
    match sample_tour(nodes, prev_pheramones) {
        Err(e) => Err(e),
        Ok(t) => {
            proof {
                lemma_tour_edges_distinct(t@);
            }
            let m = contribution_matrix(nodes, &t);
            proof {
                assert(valid_tour(t@, nodes.dim()) && contribution_matches(*nodes, t@, m)
                    && tour_weights_positive(*nodes, *prev_pheramones, t@));
            }
            Ok(m)
        },
    }
}

/// Share of a pheromone level removed by one evaporation pass: three
/// tenths, rounded down.
pub open spec fn vaporise_of(p: u64) -> int {
    (3 * p) / 10
}

/// Addition clamped at the value type's ceiling.
pub open spec fn sat_add(a: u64, b: u64) -> int {
    if a + b > u64::MAX {
        u64::MAX as int
    } else {
        a + b
    }
}

/// The evaporation matrix: each cell holds the share of the field's cell
/// that one evaporation pass removes.
pub fn get_vaporise_matrix(pheramones: &Matrix) -> (r: Matrix)
    requires
        pheramones.wf(),
    ensures
        r.wf(),
        r.dim() == pheramones.dim(),
        forall|i: int, j: int|
            r.in_range(i, j) ==> #[trigger] r.at(i, j) == vaporise_of(pheramones.at(i, j)),
{
    let n = pheramones.size();
    proof {
        pheramones.lemma_square_fits();
    }
    let total: usize = n * n;
    let mut data: Vec<u64> = Vec::new();
    let mut idx: usize = 0;
    while idx < total
        invariant
            pheramones.wf(),
            n == pheramones.dim(),
            total == n * n,
            idx <= total,
            data@.len() == idx,
            forall|t: int|
                0 <= t < idx ==> #[trigger] data@[t] == vaporise_of(pheramones.cells()[t]),
        decreases total - idx,
    {
        let p = pheramones.cell(idx);
        let v: u128 = (p as u128) * 3 / 10;
        proof {
            assert((p as u128) * 3 / 10 <= p) by (nonlinear_arith);
        }
        data.push(v as u64);
        idx = idx + 1;
    }
    let r = Matrix::from_square(n, data);
    proof {
        assert forall|i: int, j: int| r.in_range(i, j) implies #[trigger] r.at(i, j)
            == vaporise_of(pheramones.at(i, j)) by {
            r.lemma_index_bound(i, j);
        }
    }
    r
}

/// Add a sampled contribution into the field, cell by cell, clamping at
/// the value type's ceiling.
fn add_matrix(field: &mut Matrix, deposit: &Matrix)
    requires
        old(field).wf(),
        deposit.wf(),
        deposit.dim() == old(field).dim(),
    ensures
        final(field).wf(),
        final(field).dim() == old(field).dim(),
        forall|i: int, j: int|
            old(field).in_range(i, j) ==> #[trigger] final(field).at(i, j) == sat_add(
                old(field).at(i, j),
                deposit.at(i, j),
            ),
{
    let n = field.size();
    proof {
        field.lemma_square_fits();
    }
    let total: usize = n * n;
    let mut data: Vec<u64> = Vec::new();
    let mut idx: usize = 0;
    while idx < total
        invariant
            field.wf(),
            deposit.wf(),
            *field == *old(field),
            deposit.dim() == n,
            n == field.dim(),
            total == n * n,
            idx <= total,
            data@.len() == idx,
            forall|t: int|
                0 <= t < idx ==> #[trigger] data@[t] == sat_add(
                    field.cells()[t],
                    deposit.cells()[t],
                ),
        decreases total - idx,
    {
        let s: u128 = (field.cell(idx) as u128) + (deposit.cell(idx) as u128);
        let v: u64 = if s > (u64::MAX as u128) {
            u64::MAX
        } else {
            s as u64
        };
        data.push(v);
        idx = idx + 1;
    }
    let ghost orig = *field;
    *field = Matrix::from_square(n, data);
    proof {
        assert forall|i: int, j: int| orig.in_range(i, j) implies #[trigger] field.at(i, j)
            == sat_add(orig.at(i, j), deposit.at(i, j)) by {
            orig.lemma_index_bound(i, j);
        }
    }
}

/// Remove an evaporation share from the field, cell by cell.
fn subtract_matrix(field: &mut Matrix, other: &Matrix)
    requires
        old(field).wf(),
        other.wf(),
        other.dim() == old(field).dim(),
        forall|i: int, j: int|
            old(field).in_range(i, j) ==> #[trigger] other.at(i, j) <= old(field).at(i, j),
    ensures
        final(field).wf(),
        final(field).dim() == old(field).dim(),
        forall|i: int, j: int|
            old(field).in_range(i, j) ==> #[trigger] final(field).at(i, j) == old(field).at(i, j)
                - other.at(i, j),
{
    let n = field.size();
    proof {
        field.lemma_square_fits();
    }
    let total: usize = n * n;
    let mut data: Vec<u64> = Vec::new();
    let mut idx: usize = 0;
    while idx < total
        invariant
            field.wf(),
            other.wf(),
            *field == *old(field),
            other.dim() == n,
            n == field.dim(),
            total == n * n,
            idx <= total,
            data@.len() == idx,
            forall|i: int, j: int|
                field.in_range(i, j) ==> #[trigger] other.at(i, j) <= field.at(i, j),
            forall|t: int|
                0 <= t < idx ==> #[trigger] data@[t] == field.cells()[t] - other.cells()[t],
        decreases total - idx,
    {
        proof {
            field.lemma_flat_decompose(idx as int);
            other.lemma_flat_decompose(idx as int);
        }
        let v: u64 = field.cell(idx) - other.cell(idx);
        data.push(v);
        idx = idx + 1;
    }
    let ghost orig = *field;
    *field = Matrix::from_square(n, data);
    proof {
        assert forall|i: int, j: int| orig.in_range(i, j) implies #[trigger] field.at(i, j)
            == orig.at(i, j) - other.at(i, j) by {
            orig.lemma_index_bound(i, j);
        }
    }
}

/// What remains of a cell after one evaporation pass removed its three
/// tenths.
pub open spec fn evaporated(x: int) -> int {
    x - (3 * x) / 10
}

/// Field `g` is field `f` after one reinforce-then-evaporate micro-step:
/// some valid tour's contribution is laid into `f`, and every cell of
/// the result then loses its three tenths.
pub open spec fn micro_step(dist: Matrix, f: Matrix, g: Matrix) -> bool {
    &&& f.wf()
    &&& g.wf()
    &&& f.dim() == dist.dim()
    &&& g.dim() == dist.dim()
    &&& exists|t: Seq<(usize, usize)>|
        #[trigger] valid_tour(t, dist.dim()) && (forall|a: usize, b: usize|
            a < g.dim() && b < g.dim() ==> #[trigger] g.at(a as int, b as int) == evaporated(
                sat_add(f.at(a as int, b as int), contribution_at(dist, t, a, b) as u64),
            ))
}

/// Consecutive fields of the sequence are related by one micro-step each.
pub open spec fn micro_chain(dist: Matrix, fs: Seq<Matrix>) -> bool {
    forall|k: int| 0 <= k < fs.len() - 1 ==> #[trigger] micro_step(dist, fs[k], fs[k + 1])
}

/// The fields `f0` and `f1` are joined by the micro-step chain `fs`.
pub open spec fn chain_between(dist: Matrix, fs: Seq<Matrix>, f0: Matrix, f1: Matrix) -> bool {
    &&& fs.len() >= 1
    &&& fs[0] == f0
    &&& fs.last() == f1
    &&& micro_chain(dist, fs)
}

/// Evaporation keeps the field bounded: one micro-step maps a field
/// whose cells all lie within `bound` to another such field, as soon as
/// `bound` absorbs one maximal reinforcement net of its own decay
/// (seven thirds of the largest reinforcement).
pub proof fn lemma_micro_step_bounded(dist: Matrix, f: Matrix, g: Matrix, bound: u64)
    requires
        micro_step(dist, f, g),
        bound >= 2_333_333_333_337,
        forall|a: usize, b: usize|
            a < f.dim() && b < f.dim() ==> #[trigger] f.at(a as int, b as int) <= bound,
    ensures
        forall|a: usize, b: usize|
            a < g.dim() && b < g.dim() ==> #[trigger] g.at(a as int, b as int) <= bound,
{
    let t = choose|t: Seq<(usize, usize)>|
        #[trigger] valid_tour(t, dist.dim()) && (forall|a: usize, b: usize|
            a < g.dim() && b < g.dim() ==> #[trigger] g.at(a as int, b as int) == evaporated(
                sat_add(f.at(a as int, b as int), contribution_at(dist, t, a, b) as u64),
            ));
    assert forall|a: usize, b: usize| a < g.dim() && b < g.dim() implies #[trigger] g.at(
        a as int,
        b as int,
    ) <= bound by {
        let c = contribution_at(dist, t, a, b);
        assert(0 <= c <= 1_000_000_000_000) by {
            crate::weight::lemma_reinforcement_bound(dist.at(a as int, b as int));
            crate::weight::lemma_reinforcement_bound(dist.at(b as int, a as int));
        }
        let fv = f.at(a as int, b as int);
        assert(fv <= bound);
        let x = sat_add(fv, c as u64);
        assert(0 <= x <= fv + c);
        assert(x - (3 * x) / 10 <= bound) by (nonlinear_arith)
            requires
                0 <= x <= bound + 1_000_000_000_000,
                bound >= 2_333_333_333_337,
        ;
        assert(g.at(a as int, b as int) == evaporated(x));
    }
}

/// The bound survives any number of chained micro-steps: evaporation
/// prevents unbounded pheromone growth.
pub proof fn lemma_micro_chain_bounded(dist: Matrix, fs: Seq<Matrix>, bound: u64)
    requires
        micro_chain(dist, fs),
        fs.len() >= 1,
        bound >= 2_333_333_333_337,
        forall|a: usize, b: usize|
            a < fs[0].dim() && b < fs[0].dim() ==> #[trigger] fs[0].at(a as int, b as int)
                <= bound,
    ensures
        forall|a: usize, b: usize|
            a < fs.last().dim() && b < fs.last().dim() ==> #[trigger] fs.last().at(
                a as int,
                b as int,
            ) <= bound,
    decreases fs.len(),
{
    if fs.len() > 1 {
        let k0: int = 0;
        assert(micro_step(dist, fs[k0], fs[k0 + 1]));
        lemma_micro_step_bounded(dist, fs[0], fs[1], bound);
        let rest = fs.drop_first();
        assert(micro_chain(dist, rest)) by {
            assert forall|k: int| 0 <= k < rest.len() - 1 implies #[trigger] micro_step(
                dist,
                rest[k],
                rest[k + 1],
            ) by {
                assert(rest[k] == fs[k + 1] && rest[k + 1] == fs[k + 2]);
                assert(micro_step(dist, fs[k + 1], fs[k + 2]));
            }
        }
        assert(rest[0] == fs[1]);
        assert(rest.last() == fs.last());
        lemma_micro_chain_bounded(dist, rest, bound);
    }
}

/// One micro-step of refinement: lay the pheromone of one freshly
/// sampled tour into the field, then evaporate three tenths of every
/// cell.  Each cell of the new field is exactly the old cell, plus the
/// sampled tour's contribution there, evaporated once.
///
/// On `NoReachableNode` the field is left untouched.
pub fn reinforce_and_evaporate(pheramones: &mut Matrix, dist: &Matrix) -> (r: Result<
    (),
    AcoError,
>)
    requires
        old(pheramones).wf(),
        dist.wf(),
        old(pheramones).dim() == dist.dim(),
        old(pheramones).is_symmetric(),
    ensures
        final(pheramones).wf(),
        final(pheramones).dim() == old(pheramones).dim(),
        final(pheramones).is_symmetric(),
        match r {
            Ok(()) => micro_step(*dist, *old(pheramones), *final(pheramones)),
            Err(e) => e == AcoError::NoReachableNode && *final(pheramones) == *old(pheramones),
        },
        weights_ok(*dist, *old(pheramones)) ==> r is Ok,
        dist.dim() <= 1 ==> r is Ok,
{
    let deposit = match get_pheramones(dist, pheramones) {
        Ok(m) => m,
        Err(e) => {
            return Err(e);
        },
    };
    let ghost tour = choose|t: Seq<(usize, usize)>|
        #[trigger] valid_tour(t, dist.dim()) && contribution_matches(*dist, t, deposit);
    let ghost before = *pheramones;
    add_matrix(pheramones, &deposit);
    let vap = get_vaporise_matrix(pheramones);
    proof {
        assert forall|i: int, j: int| pheramones.in_range(i, j) implies #[trigger] vap.at(i, j)
            <= pheramones.at(i, j) by {
            let p = pheramones.at(i, j);
            assert((3 * p) / 10 <= p) by (nonlinear_arith);
        }
    }
    let ghost mid = *pheramones;
    subtract_matrix(pheramones, &vap);
    proof {
        assert forall|a: usize, b: usize| a < pheramones.dim() && b < pheramones.dim()
            implies #[trigger] pheramones.at(a as int, b as int) == evaporated(
            sat_add(
                before.at(a as int, b as int),
                contribution_at(*dist, tour, a, b) as u64,
            ),
        ) by {
            assert(deposit.at(a as int, b as int) == contribution_at(*dist, tour, a, b));
            assert(mid.at(a as int, b as int) == sat_add(
                before.at(a as int, b as int),
                deposit.at(a as int, b as int),
            ));
            assert(vap.at(a as int, b as int) == vaporise_of(mid.at(a as int, b as int)));
        }
        assert forall|i: int, j: int| pheramones.in_range(i, j) implies #[trigger] pheramones.at(
            i,
            j,
        ) == pheramones.at(j, i) by {
            assert(mid.at(i, j) == mid.at(j, i));
            assert(vap.at(i, j) == vaporise_of(mid.at(i, j)));
            assert(vap.at(j, i) == vaporise_of(mid.at(j, i)));
        }
        assert(valid_tour(tour, dist.dim()));
        assert(micro_step(*dist, before, *pheramones));
    }
    Ok(())
}

/// One refinement cycle: one hundred micro-steps, each laying the
/// pheromone of one freshly sampled tour into the field and then
/// evaporating three tenths of every cell.  The final field is joined
/// to the old one by a chain of exactly one hundred micro-steps; on
/// `NoReachableNode` the chain is the prefix of completed micro-steps
/// and the cycle stops early.
///
/// Non-negativity and symmetry of the field survive every micro-step.
pub fn update_pheromones(pheramones: &mut Matrix, dist: &Matrix) -> (r: Result<(), AcoError>)
    requires
        old(pheramones).wf(),
        dist.wf(),
        old(pheramones).dim() == dist.dim(),
        old(pheramones).is_symmetric(),
    ensures
        final(pheramones).wf(),
        final(pheramones).dim() == old(pheramones).dim(),
        final(pheramones).is_symmetric(),
        forall|i: int, j: int|
            final(pheramones).in_range(i, j) ==> #[trigger] final(pheramones).at(i, j) >= 0,
        r is Ok ==> exists|fs: Seq<Matrix>|
            #[trigger] chain_between(*dist, fs, *old(pheramones), *final(pheramones))
                && fs.len() == 101,
        r is Err ==> exists|fs: Seq<Matrix>|
            #[trigger] chain_between(*dist, fs, *old(pheramones), *final(pheramones))
                && fs.len() <= 100,
        r is Err ==> r == Err::<(), AcoError>(AcoError::NoReachableNode),
        dist.dim() <= 1 ==> r is Ok,
{
    let ghost mut states: Seq<Matrix> = seq![*pheramones];
    let mut c: usize = 0;
    while c < 100
        invariant
            pheramones.wf(),
            dist.wf(),
            pheramones.dim() == dist.dim(),
            pheramones.dim() == old(pheramones).dim(),
            pheramones.is_symmetric(),
            c <= 100,
            states.len() == c + 1,
            states[0] == *old(pheramones),
            states.last() == *pheramones,
            micro_chain(*dist, states),
        decreases 100 - c,
    {
        let ghost prev_states = states;
        match reinforce_and_evaporate(pheramones, dist) {
            Ok(()) => {},
            Err(e) => {
                proof {
                    assert(chain_between(*dist, states, *old(pheramones), *pheramones));
                }
                return Err(e);
            },
        }
        proof {
            states = states.push(*pheramones);
            assert(micro_chain(*dist, states)) by {
                assert forall|k: int| 0 <= k < states.len() - 1 implies #[trigger] micro_step(
                    *dist,
                    states[k],
                    states[k + 1],
                ) by {
                    if k < prev_states.len() - 1 {
                        assert(states[k] == prev_states[k]);
                        assert(states[k + 1] == prev_states[k + 1]);
                        assert(micro_step(*dist, prev_states[k], prev_states[k + 1]));
                    } else {
                        assert(states[k] == prev_states.last());
                        assert(states[k + 1] == *pheramones);
                    }
                }
            }
        }
        c = c + 1;
    }
    proof {
        assert(chain_between(*dist, states, *old(pheramones), *pheramones));
    }
    Ok(())
}

/// First-seen argmax scan: the unvisited column of row `cur` holding the
/// strictly largest pheromone level, scanning columns from `j` up with
/// incumbent `best` (`-1` for none); an incumbent is never replaced on a
/// tie, so the earliest largest column wins.
pub open spec fn pick_from(p: Matrix, cur: int, vis: Seq<bool>, j: nat, best: int) -> int
    decreases p.dim() - j,
{
    if j >= p.dim() {
        best
    } else {
        let cand = if !vis[j as int] && (best < 0 || p.at(cur, j as int) > p.at(cur, best)) {
            j as int
        } else {
            best
        };
        pick_from(p, cur, vis, j + 1, cand)
    }
}

/// The pheromone-greedy walk: from `cur`, repeatedly step to the
/// unvisited node with the highest pheromone level, `steps` times.
pub open spec fn best_walk(p: Matrix, cur: int, vis: Seq<bool>, steps: nat) -> Seq<(usize, usize)>
    decreases steps,
{
    if steps == 0 {
        Seq::empty()
    } else {
        let vis2 = vis.update(cur, true);
        let nxt = pick_from(p, cur, vis2, 0, -1);
        if nxt < 0 {
            Seq::empty()
        } else {
            seq![(cur as usize, nxt as usize)] + best_walk(p, nxt, vis2, (steps - 1) as nat)
        }
    }
}

/// The deterministic best tour of a field: the pheromone-greedy walk of
/// `dim - 1` steps starting at node zero.
pub open spec fn best_path_spec(p: Matrix) -> Seq<(usize, usize)> {
    if p.dim() <= 1 {
        Seq::empty()
    } else {
        best_walk(p, 0, Seq::new(p.dim(), |k: int| false), (p.dim() - 1) as nat)
    }
}

/// Best-tour extraction is deterministic: two extractions from the same
/// pheromone field snapshot yield the identical tour.
pub proof fn lemma_best_path_deterministic(
    t1: Seq<(usize, usize)>,
    t2: Seq<(usize, usize)>,
    p: Matrix,
)
    requires
        t1 == best_path_spec(p),
        t2 == best_path_spec(p),
    ensures
        t1 == t2,
{
}

/// Extract the pheromone-greedy best tour: starting at node zero, walk
/// to the unvisited node with the highest pheromone level until every
/// node is visited (earliest node wins a tie).
pub fn get_best_path(pheramones: &Matrix) -> (r: Vec<(usize, usize)>)
    requires
        pheramones.wf(),
    ensures
        r@ == best_path_spec(*pheramones),
        valid_tour(r@, pheramones.dim()),
{
    let n = pheramones.size();
    let mut edges: Vec<(usize, usize)> = Vec::new();
    if n <= 1 {
        return edges;
    }
    let mut visited: Vec<bool> = vec![false; n];
    let mut order: Vec<usize> = Vec::new();
    let mut cur: usize = 0;
    visited[cur] = true;
    order.push(cur);
    proof {
        let vis0 = Seq::new(n as nat, |k: int| false);
        lemma_count_true_update(vis0, 0);
        assert(count_true(visited@) == 1) by {
            assert(visited@ =~= vis0.update(0, true));
            lemma_count_true_zero(vis0);
        }
        assert(order@ =~= seq![0usize]);
        assert forall|v: usize| v < n implies (visited@[v as int] <==> order@.contains(v)) by {
            if order@.contains(v) {
                let k = choose|k: int| 0 <= k < order@.len() && order@[k] == v;
                assert(v == 0);
            }
            if visited@[v as int] {
                assert(v == 0);
                assert(order@[0] == v);
            }
        }
        assert(best_walk(*pheramones, 0, vis0, (n - 1) as nat) == best_walk(
            *pheramones,
            0,
            visited@,
            (n - 1) as nat,
        )) by {
            assert(vis0.update(0, true) =~= visited@.update(0, true));
        }
    }
    while order.len() < n
        invariant
            pheramones.wf(),
            n == pheramones.dim(),
            2 <= n,
            visited@.len() == n,
            1 <= order@.len() <= n,
            cur < n,
            order@.last() == cur,
            visited@[cur as int],
            count_true(visited@) == order@.len(),
            forall|v: usize| v < n ==> (visited@[v as int] <==> order@.contains(v)),
            order@.no_duplicates(),
            forall|k: int| 0 <= k < order@.len() ==> order@[k] < n,
            edges@.len() == order@.len() - 1,
            edges_in_range(edges@, n as nat),
            connected(edges@),
            edges@.len() > 0 ==> edges@.last().1 == cur,
            nodes_of(edges@) =~= if edges@.len() == 0 { Seq::<usize>::empty() } else { order@ },
            best_path_spec(*pheramones) == edges@ + best_walk(
                *pheramones,
                cur as int,
                visited@,
                (n - order@.len()) as nat,
            ),
        decreases n - order@.len(),
    {
        let ghost prev_edges = edges@;
        let ghost prev_order = order@;
        let mut acc: Option<usize> = None;
        let mut j: usize = 0;
        while j < n
            invariant
                pheramones.wf(),
                n == pheramones.dim(),
                cur < n,
                visited@.len() == n,
                j <= n,
                match acc {
                    Option::None => forall|t: int| 0 <= t < j ==> visited@[t],
                    Option::Some(t) => t < n && !visited@[t as int],
                },
                pick_from(
                    *pheramones,
                    cur as int,
                    visited@,
                    j as nat,
                    match acc {
                        Option::None => -1,
                        Option::Some(t) => t as int,
                    },
                ) == pick_from(*pheramones, cur as int, visited@, 0, -1),
            decreases n - j,
        {
            let better: bool = if visited[j] {
                false
            } else {
                match acc {
                    Option::None => true,
                    Option::Some(t) => pheramones.get(cur, j) > pheramones.get(cur, t),
                }
            };
            if better {
                acc = Some(j);
            }
            j = j + 1;
        }
        let next: usize = match acc {
            Some(t) => t,
            None => {
                proof {
                    lemma_count_true_bounds(visited@);
                    let k = lemma_count_true_missing(visited@);
                    assert(false);
                }
                0
            },
        };
        proof {
            let steps = (n - order@.len()) as nat;
            let walk = best_walk(*pheramones, cur as int, visited@, steps);
            assert(visited@.update(cur as int, true) =~= visited@);
            assert(pick_from(*pheramones, cur as int, visited@.update(cur as int, true), 0, -1)
                == next as int);
            assert(walk == seq![(cur, next)] + best_walk(
                *pheramones,
                next as int,
                visited@,
                (steps - 1) as nat,
            ));
            assert(!visited@[next as int]);
            assert(!order@.contains(next));
            lemma_count_true_update(visited@, next as int);
        }
        let ghost prev_visited = visited@;
        edges.push((cur, next));
        visited[next] = true;
        order.push(next);
        proof {
            assert(order@.no_duplicates()) by {
                assert(forall|k: int| 0 <= k < prev_order.len() ==> order@[k] == prev_order[k]);
                assert(forall|k: int| 0 <= k < prev_order.len() ==> prev_order[k] != next);
            }
            assert(nodes_of(edges@) =~= order@) by {
                lemma_nodes_of_push(prev_edges, (cur, next), prev_order);
            }
            assert forall|v: usize| v < n implies (visited@[v as int] <==> order@.contains(v)) by {
                if order@.contains(v) {
                    let k = choose|k: int| 0 <= k < order@.len() && order@[k] == v;
                    if k < order@.len() - 1 {
                        assert(prev_order[k] == v);
                        assert(prev_order.contains(v));
                    } else {
                        assert(v == next);
                    }
                }
                if visited@[v as int] {
                    if v == next {
                        assert(order@[order@.len() - 1] == v);
                    } else {
                        assert(prev_visited[v as int]);
                        assert(prev_order.contains(v));
                        let k = choose|k: int| 0 <= k < prev_order.len() && prev_order[k] == v;
                        assert(order@[k] == v);
                    }
                }
            }
            assert(best_walk(
                *pheramones,
                next as int,
                prev_visited,
                (n - order@.len()) as nat,
            ) == best_walk(*pheramones, next as int, visited@, (n - order@.len()) as nat)) by {
                assert(prev_visited.update(next as int, true) =~= visited@.update(
                    next as int,
                    true,
                ));
                lemma_best_walk_congruent(
                    *pheramones,
                    next as int,
                    prev_visited,
                    visited@,
                    (n - order@.len()) as nat,
                );
            }
            assert(edges@ =~= prev_edges.push((cur, next)));
            assert(prev_edges + seq![(cur, next)] =~= edges@);
            assert(best_path_spec(*pheramones) == edges@ + best_walk(
                *pheramones,
                next as int,
                visited@,
                (n - order@.len()) as nat,
            )) by {
                assert(prev_edges + (seq![(cur, next)] + best_walk(
                    *pheramones,
                    next as int,
                    prev_visited,
                    (n - order@.len()) as nat,
                )) =~= edges@ + best_walk(
                    *pheramones,
                    next as int,
                    prev_visited,
                    (n - order@.len()) as nat,
                ));
            }
        }
        cur = next;
    }
    proof {
        lemma_count_true_all(visited@);
        assert(covers_all(nodes_of(edges@), n as nat)) by {
            assert(forall|v: usize| v < n ==> visited@[v as int]);
        }
        assert(best_walk(*pheramones, cur as int, visited@, 0) =~= Seq::<(usize, usize)>::empty());
        assert(edges@ + Seq::<(usize, usize)>::empty() =~= edges@);
    }
    edges
}

/// Two visited vectors that agree after marking the current node drive
/// the greedy walk identically.
proof fn lemma_best_walk_congruent(p: Matrix, cur: int, v1: Seq<bool>, v2: Seq<bool>, steps: nat)
    requires
        v1.update(cur, true) == v2.update(cur, true),
    ensures
        best_walk(p, cur, v1, steps) == best_walk(p, cur, v2, steps),
{
    if steps > 0 {
        assert(best_walk(p, cur, v1, steps) == best_walk(p, cur, v2, steps)) by {
            assert(v1.update(cur, true) == v2.update(cur, true));
        }
    }
}

/// Clamp an unbounded total at the value type's ceiling.
pub open spec fn clamp_u64(x: int) -> int {
    if x > u64::MAX {
        u64::MAX as int
    } else {
        x
    }
}

/// Total distance of a path: the sum of its edges' matrix entries, where
/// an out-of-range entry contributes zero.
pub open spec fn path_length_of(s: Seq<(usize, usize)>, d: Matrix) -> int
    decreases s.len(),
{
    if s.len() == 0 {
        0
    } else {
        path_length_of(s.drop_last(), d) + d.at_or_zero(s.last().0 as int, s.last().1 as int)
    }
}

proof fn lemma_path_length_bound(s: Seq<(usize, usize)>, d: Matrix)
    ensures
        0 <= path_length_of(s, d) <= s.len() * (u64::MAX as int),
    decreases s.len(),
{
    if s.len() > 0 {
        lemma_path_length_bound(s.drop_last(), d);
        assert((s.len() - 1) * (u64::MAX as int) + (u64::MAX as int) == s.len() * (
        u64::MAX as int)) by (nonlinear_arith);
    }
}

/// Sum the distances of a path's edges; a missing matrix entry counts as
/// zero, and the total clamps at the value type's ceiling.
pub fn get_path_distance(path: &Vec<(usize, usize)>, distances: &Matrix) -> (r: u64)
    requires
        distances.wf(),
    ensures
        r == clamp_u64(path_length_of(path@, *distances)),
{
    let mut acc: u128 = 0;
    let mut k: usize = 0;
    proof {
        assert(path@.subrange(0, 0) =~= Seq::<(usize, usize)>::empty());
    }
    while k < path.len()
        invariant
            distances.wf(),
            k <= path@.len(),
            acc == path_length_of(path@.subrange(0, k as int), *distances),
            acc <= (k as int) * (u64::MAX as int),
        decreases path@.len() - k,
    {
        let (a, b) = path[k];
        let v = distances.get_or_zero(a, b);
        proof {
            let prefix = path@.subrange(0, k as int);
            let longer = path@.subrange(0, k as int + 1);
            assert(longer.drop_last() =~= prefix);
            assert(longer.last() == path@[k as int]);
            assert((k as int) * (u64::MAX as int) + (u64::MAX as int) == (k as int + 1) * (
            u64::MAX as int)) by (nonlinear_arith);
            assert((k as int + 1) * (u64::MAX as int) < u128::MAX) by (nonlinear_arith)
                requires 0 <= k as int + 1 <= u64::MAX,
            ;
        }
        acc = acc + (v as u128);
        k = k + 1;
    }
    proof {
        assert(path@.subrange(0, path@.len() as int) =~= path@);
    }
    if acc > (u64::MAX as u128) {
        u64::MAX
    } else {
        acc as u64
    }
}

proof fn lemma_path_length_remove(s: Seq<(usize, usize)>, i: int, d: Matrix)
    requires
        0 <= i < s.len(),
    ensures
        path_length_of(s, d) == path_length_of(s.remove(i), d) + d.at_or_zero(
            s[i].0 as int,
            s[i].1 as int,
        ),
    decreases s.len(),
{
    if i == s.len() - 1 {
        assert(s.remove(i) =~= s.drop_last());
    } else {
        assert(s.remove(i).drop_last() =~= s.drop_last().remove(i));
        assert(s.remove(i).last() == s.last());
        lemma_path_length_remove(s.drop_last(), i, d);
    }
}

/// The tour length is a sum over an unordered edge set: any reordering
/// of the edges yields the same length.
pub proof fn lemma_path_length_reorder(s1: Seq<(usize, usize)>, s2: Seq<(usize, usize)>, d: Matrix)
    requires
        s1.to_multiset() == s2.to_multiset(),
    ensures
        path_length_of(s1, d) == path_length_of(s2, d),
    decreases s1.len(),
{
    s1.to_multiset_ensures();
    s2.to_multiset_ensures();
    if s1.len() == 0 {
        assert(s2.len() == 0);
    } else {
        let i = s1.len() - 1;
        let x = s1[i];
        assert(s1.contains(x));
        assert(s2.to_multiset().count(x) > 0);
        assert(s2.contains(x));
        let j = choose|j: int| 0 <= j < s2.len() && s2[j] == x;
        assert(s1.remove(i).to_multiset() =~= s1.to_multiset().remove(x));
        assert(s2.remove(j).to_multiset() =~= s2.to_multiset().remove(x));
        lemma_path_length_remove(s1, i, d);
        lemma_path_length_remove(s2, j, d);
        assert(s1.remove(i).len() < s1.len());
        lemma_path_length_reorder(s1.remove(i), s2.remove(j), d);
    }
}

proof fn lemma_count_true_zero(s: Seq<bool>)
    requires
        forall|k: int| 0 <= k < s.len() ==> !s[k],
    ensures
        count_true(s) == 0,
    decreases s.len(),
{
    if s.len() > 0 {
        lemma_count_true_zero(s.drop_last());
    }
}

/// A weight vector of `k` entries sums to at most `k` times the largest value.
proof fn lemma_row_sum_partial_bound(s: Seq<u64>)
    ensures
        seq_sum(s) <= s.len() * (u64::MAX as int),
    decreases s.len(),
{
    if s.len() > 0 {
        lemma_row_sum_partial_bound(s.drop_last());
        assert((s.len() - 1) * (u64::MAX as int) + (u64::MAX as int) == s.len() * (
        u64::MAX as int)) by (nonlinear_arith);
    }
}

/// Appending an edge that starts at the walk's last node extends the
/// node list by the edge's head.
proof fn lemma_nodes_of_push(s: Seq<(usize, usize)>, e: (usize, usize), order: Seq<usize>)
    requires
        order.len() >= 1,
        s.len() == order.len() - 1,
        e.0 == order.last(),
        nodes_of(s) =~= if s.len() == 0 { Seq::<usize>::empty() } else { order },
    ensures
        nodes_of(s.push(e)) =~= order.push(e.1),
{
    let t = s.push(e);
    let heads = t.map_values(|q: (usize, usize)| q.1);
    assert(heads =~= s.map_values(|q: (usize, usize)| q.1).push(e.1));
    if s.len() == 0 {
        assert(nodes_of(t) =~= seq![e.0] + heads);
        assert(order =~= seq![e.0]);
    } else {
        assert(t[0] == s[0]);
        assert(nodes_of(t) =~= (seq![s[0].0] + s.map_values(|q: (usize, usize)| q.1)).push(e.1));
    }
}

} // verus!
