use vstd::prelude::*;
use crate::errors::AcoError;
use crate::matrix::Matrix;

verus! {

/// Largest matrix dimension the embedding accepts; keeps the exact
/// integer Gram arithmetic inside its value type.
pub const MDS_MAX_DIM: usize = 10_000;

/// Largest distance value the embedding accepts, for the same reason.
pub const MDS_MAX_DISTANCE: u64 = 1_000_000_000;

/// Squared distance of one cell.
pub open spec fn sq_at(m: Matrix, i: int, j: int) -> int {
    m.at(i, j) * m.at(i, j)
}

/// Sum of the squared distances of row `i`, over columns below `k`.
pub open spec fn row_sq_sum(m: Matrix, i: int, k: nat) -> int
    decreases k,
{
    if k == 0 {
        0
    } else {
        row_sq_sum(m, i, (k - 1) as nat) + sq_at(m, i, k - 1)
    }
}

/// Sum of the squared distances of column `j`, over rows below `k`.
pub open spec fn col_sq_sum(m: Matrix, j: int, k: nat) -> int
    decreases k,
{
    if k == 0 {
        0
    } else {
        col_sq_sum(m, j, (k - 1) as nat) + sq_at(m, k - 1, j)
    }
}

/// Sum of all squared distances, over rows below `k`.
pub open spec fn total_sq_sum(m: Matrix, k: nat) -> int
    decreases k,
{
    if k == 0 {
        0
    } else {
        total_sq_sum(m, (k - 1) as nat) + row_sq_sum(m, k - 1, m.dim())
    }
}

/// Cell `[i][j]` of the double-centered Gram matrix, scaled by `2 n²` so
/// the centering stays exact in integers: subtracting row, column and
/// grand means of the squared distances and negating half of the result.
pub open spec fn gram_of(m: Matrix, i: int, j: int) -> int {
    let n = m.dim() as int;
    -(n * n * sq_at(m, i, j) - n * row_sq_sum(m, i, m.dim()) - n * col_sq_sum(m, j, m.dim())
        + total_sq_sum(m, m.dim()))
}

/// All cells lie within the embedding's distance bound.
pub open spec fn dist_bounded(m: Matrix) -> bool {
    forall|i: int, j: int| m.in_range(i, j) ==> #[trigger] m.at(i, j) <= MDS_MAX_DISTANCE
}

/// Square the distances and double-center them: the first half of the
/// classical metric embedding, exact in integers.  Cell `[i][j]` of the
/// result sits at flat index `i * n + j` and holds `gram_of` that cell.
pub fn mds_gram(dist: &Matrix) -> (r: Vec<i128>)
    requires
        dist.wf(),
        dist.dim() <= MDS_MAX_DIM,
        dist_bounded(*dist),
    ensures
        r@.len() == dist.dim() * dist.dim(),
        forall|t: int|
            0 <= t < r@.len() ==> #[trigger] r@[t] == gram_of(
                *dist,
                t / dist.dim() as int,
                t % dist.dim() as int,
            ),
{
    let n = dist.size();
    proof {
        dist.lemma_square_fits();
    }
    // Row sums of squared distances.
    let mut rs: Vec<u128> = Vec::new();
    let mut i: usize = 0;
    while i < n
        invariant
            dist.wf(),
            n == dist.dim(),
            n <= MDS_MAX_DIM,
            dist_bounded(*dist),
            i <= n,
            rs@.len() == i,
            forall|a: int|
                0 <= a < i ==> #[trigger] rs@[a] == row_sq_sum(*dist, a, n as nat)
                    && rs@[a] <= (n as int) * 1_000_000_000_000_000_000,
        decreases n - i,
    {
        let mut acc: u128 = 0;
        let mut j: usize = 0;
        while j < n
            invariant
                dist.wf(),
                n == dist.dim(),
                n <= MDS_MAX_DIM,
                dist_bounded(*dist),
                i < n,
                j <= n,
                acc == row_sq_sum(*dist, i as int, j as nat),
                acc <= (j as int) * 1_000_000_000_000_000_000,
        decreases n - j,
        {
            let d = dist.get(i, j);
            proof {
                assert(dist.at(i as int, j as int) <= MDS_MAX_DISTANCE);
                assert((d as int) * (d as int) <= 1_000_000_000_000_000_000) by (nonlinear_arith)
                    requires 0 <= d as int <= 1_000_000_000,
                ;
                assert((j as int) * 1_000_000_000_000_000_000 + 1_000_000_000_000_000_000 == (
                j as int + 1) * 1_000_000_000_000_000_000) by (nonlinear_arith);
                assert((j as int + 1) * 1_000_000_000_000_000_000 < u128::MAX) by (nonlinear_arith)
                    requires 0 <= j as int + 1 <= 10_000,
                ;
            }
            let sq: u128 = (d as u128) * (d as u128);
            acc = acc + sq;
            j = j + 1;
        }
        rs.push(acc);
        i = i + 1;
    }
    // Column sums of squared distances.
    let mut cs: Vec<u128> = Vec::new();
    let mut jj: usize = 0;
    while jj < n
        invariant
            dist.wf(),
            n == dist.dim(),
            n <= MDS_MAX_DIM,
            dist_bounded(*dist),
            jj <= n,
            cs@.len() == jj,
            forall|a: int|
                0 <= a < jj ==> #[trigger] cs@[a] == col_sq_sum(*dist, a, n as nat)
                    && cs@[a] <= (n as int) * 1_000_000_000_000_000_000,
        decreases n - jj,
    {
        let mut acc: u128 = 0;
        let mut ii: usize = 0;
        while ii < n
            invariant
                dist.wf(),
                n == dist.dim(),
                n <= MDS_MAX_DIM,
                dist_bounded(*dist),
                jj < n,
                ii <= n,
                acc == col_sq_sum(*dist, jj as int, ii as nat),
                acc <= (ii as int) * 1_000_000_000_000_000_000,
            decreases n - ii,
        {
            let d = dist.get(ii, jj);
            proof {
                assert(dist.at(ii as int, jj as int) <= MDS_MAX_DISTANCE);
                assert((d as int) * (d as int) <= 1_000_000_000_000_000_000) by (nonlinear_arith)
                    requires 0 <= d as int <= 1_000_000_000,
                ;
                assert((ii as int) * 1_000_000_000_000_000_000 + 1_000_000_000_000_000_000 == (
                ii as int + 1) * 1_000_000_000_000_000_000) by (nonlinear_arith);
                assert((ii as int + 1) * 1_000_000_000_000_000_000 < u128::MAX)
                    by (nonlinear_arith)
                    requires 0 <= ii as int + 1 <= 10_000,
                ;
            }
            let sq: u128 = (d as u128) * (d as u128);
            acc = acc + sq;
            ii = ii + 1;
        }
        cs.push(acc);
        jj = jj + 1;
    }
    // Grand total of squared distances.
    let mut tot: u128 = 0;
    let mut t: usize = 0;
    while t < n
        invariant
            dist.wf(),
            n == dist.dim(),
            n <= MDS_MAX_DIM,
            t <= n,
            rs@.len() == n,
            forall|a: int|
                0 <= a < n ==> #[trigger] rs@[a] == row_sq_sum(*dist, a, n as nat)
                    && rs@[a] <= (n as int) * 1_000_000_000_000_000_000,
            tot == total_sq_sum(*dist, t as nat),
            tot <= (t as int) * ((n as int) * 1_000_000_000_000_000_000),
        decreases n - t,
    {
        proof {
            assert((t as int) * ((n as int) * 1_000_000_000_000_000_000) + (n as int)
                * 1_000_000_000_000_000_000 == (t as int + 1) * ((n as int)
                * 1_000_000_000_000_000_000)) by (nonlinear_arith);
            assert((t as int + 1) * ((n as int) * 1_000_000_000_000_000_000) < u128::MAX)
                by (nonlinear_arith)
                requires 0 <= t as int + 1 <= 10_000 && 0 <= n as int <= 10_000,
            ;
        }
        tot = tot + rs[t];
        t = t + 1;
    }
    proof {
        assert(tot <= 100_000_000_000_000_000_000_000_000) by (nonlinear_arith)
            requires
                0 <= tot <= (n as int) * ((n as int) * 1_000_000_000_000_000_000),
                0 <= n as int <= 10_000,
        ;
    }
    // Assemble the centered cells.
    let mut data: Vec<i128> = Vec::new();
    let mut a: usize = 0;
    while a < n
        invariant
            dist.wf(),
            n == dist.dim(),
            n <= MDS_MAX_DIM,
            dist_bounded(*dist),
            a <= n,
            rs@.len() == n,
            cs@.len() == n,
            forall|q: int|
                0 <= q < n ==> #[trigger] rs@[q] == row_sq_sum(*dist, q, n as nat)
                    && rs@[q] <= (n as int) * 1_000_000_000_000_000_000,
            forall|q: int|
                0 <= q < n ==> #[trigger] cs@[q] == col_sq_sum(*dist, q, n as nat)
                    && cs@[q] <= (n as int) * 1_000_000_000_000_000_000,
            tot == total_sq_sum(*dist, n as nat),
            tot <= 100_000_000_000_000_000_000_000_000,
            data@.len() == a * n,
            forall|q: int|
                0 <= q < data@.len() ==> #[trigger] data@[q] == gram_of(
                    *dist,
                    q / n as int,
                    q % n as int,
                ),
        decreases n - a,
    {
        let mut b: usize = 0;
        while b < n
            invariant
                dist.wf(),
                n == dist.dim(),
                n <= MDS_MAX_DIM,
                dist_bounded(*dist),
                a < n,
                b <= n,
                rs@.len() == n,
                cs@.len() == n,
                forall|q: int|
                    0 <= q < n ==> #[trigger] rs@[q] == row_sq_sum(*dist, q, n as nat)
                        && rs@[q] <= (n as int) * 1_000_000_000_000_000_000,
                forall|q: int|
                    0 <= q < n ==> #[trigger] cs@[q] == col_sq_sum(*dist, q, n as nat)
                        && cs@[q] <= (n as int) * 1_000_000_000_000_000_000,
                tot == total_sq_sum(*dist, n as nat),
                tot <= 100_000_000_000_000_000_000_000_000,
                data@.len() == a * n + b,
                forall|q: int|
                    0 <= q < data@.len() ==> #[trigger] data@[q] == gram_of(
                        *dist,
                        q / n as int,
                        q % n as int,
                    ),
            decreases n - b,
        {
            let d = dist.get(a, b);
            let ra: u128 = rs[a];
            let cb: u128 = cs[b];
            proof {
                assert(dist.at(a as int, b as int) <= MDS_MAX_DISTANCE);
                assert((d as int) * (d as int) <= 1_000_000_000_000_000_000) by (nonlinear_arith)
                    requires 0 <= d as int <= 1_000_000_000,
                ;
                assert(ra <= 10_000 * 1_000_000_000_000_000_000) by (nonlinear_arith)
                    requires
                        0 <= ra <= (n as int) * 1_000_000_000_000_000_000,
                        0 <= n as int <= 10_000,
                ;
                assert(cb <= 10_000 * 1_000_000_000_000_000_000) by (nonlinear_arith)
                    requires
                        0 <= cb <= (n as int) * 1_000_000_000_000_000_000,
                        0 <= n as int <= 10_000,
                ;
            }
            let sq: u128 = (d as u128) * (d as u128);
            let nn: i128 = n as i128;
            proof {
                assert(0 <= nn * nn <= 100_000_000) by (nonlinear_arith)
                    requires 0 <= nn <= 10_000,
                ;
            }
            let n2: i128 = nn * nn;
            proof {
                assert(0 <= n2 * (sq as i128) <= 100_000_000_000_000_000_000_000_000)
                    by (nonlinear_arith)
                    requires
                        0 <= n2 <= 100_000_000,
                        0 <= sq as i128 <= 1_000_000_000_000_000_000,
                ;
                assert(0 <= nn * (ra as i128) <= 100_000_000_000_000_000_000_000_000)
                    by (nonlinear_arith)
                    requires
                        0 <= nn <= 10_000,
                        0 <= ra as i128 <= 10_000 * 1_000_000_000_000_000_000,
                ;
                assert(0 <= nn * (cb as i128) <= 100_000_000_000_000_000_000_000_000)
                    by (nonlinear_arith)
                    requires
                        0 <= nn <= 10_000,
                        0 <= cb as i128 <= 10_000 * 1_000_000_000_000_000_000,
                ;
            }
            let t2: i128 = n2 * (sq as i128);
            let t3: i128 = nn * (ra as i128);
            let t4: i128 = nn * (cb as i128);
            let t5: i128 = tot as i128;
            let centered: i128 = -(t2 - t3 - t4 + t5);
            data.push(centered);
            proof {
                let q0: int = (a as int) * (n as int) + (b as int);
                assert(q0 / (n as int) == a as int && q0 % (n as int) == b as int)
                    by (nonlinear_arith)
                    requires
                        q0 == (a as int) * (n as int) + (b as int),
                        0 <= (b as int) && (b as int) < (n as int),
                        0 <= a as int,
                ;
                assert(data@[q0] == gram_of(*dist, a as int, b as int));
            }
            b = b + 1;
        }
        proof {
            assert((a as int) * (n as int) + (n as int) == (a as int + 1) * (n as int))
                by (nonlinear_arith);
        }
        a = a + 1;
    }
    data
}

/// `r` is the floor of the square root of `x`.
pub open spec fn is_sqrt_floor(r: int, x: int) -> bool {
    r >= 0 && r * r <= x < (r + 1) * (r + 1)
}

/// Floor of the square root of a non-negative integer.
pub open spec fn sqrt_floor(x: int) -> int {
    choose|r: int| is_sqrt_floor(r, x)
}

proof fn lemma_sqrt_floor_is(x: int, r: int)
    requires
        r >= 0,
        r * r <= x,
        x < (r + 1) * (r + 1),
    ensures
        sqrt_floor(x) == r,
{
    assert(exists|q: int| is_sqrt_floor(q, x)) by {
        assert(is_sqrt_floor(r, x));
    }
    let q = sqrt_floor(x);
    assert(is_sqrt_floor(q, x));
    assert(q == r) by (nonlinear_arith)
        requires
            r >= 0 && q >= 0,
            r * r <= x && x < (r + 1) * (r + 1),
            q * q <= x && x < (q + 1) * (q + 1),
    ;
}

/// Integer square root, rounded down.
pub fn isqrt(x: u128) -> (r: u64)
    ensures
        r as int == sqrt_floor(x as int),
        (r as int) * (r as int) <= x as int,
        (x as int) < (r as int + 1) * (r as int + 1),
{
    if x == 0 {
        proof {
            lemma_sqrt_floor_is(0, 0);
        }
        return 0;
    }
    let mut lo: u128 = 0;
    let mut hi: u128 = if x >= 0xffff_ffff_ffff_ffff {
        0x1_0000_0000_0000_0000
    } else {
        x + 1
    };
    proof {
        assert(lo * lo <= x);
        if x >= 0xffff_ffff_ffff_ffff {
            assert((x as int) < hi * hi) by (nonlinear_arith)
                requires
                    hi == 0x1_0000_0000_0000_0000,
                    x as int <= u128::MAX,
            ;
        } else {
            assert((x as int) < hi * hi) by (nonlinear_arith)
                requires hi == x + 1 && x >= 1,
            ;
        }
    }
    while lo + 1 < hi
        invariant
            x >= 1,
            lo < hi,
            hi <= 0x1_0000_0000_0000_0000,
            lo * lo <= x,
            (x as int) < hi * hi,
        decreases hi - lo,
    {
        let mid: u128 = lo + (hi - lo) / 2;
        proof {
            assert(lo < mid < hi);
            assert(mid * mid < u128::MAX) by (nonlinear_arith)
                requires 0 < mid < 0x1_0000_0000_0000_0000,
            ;
        }
        if mid * mid <= x {
            lo = mid;
        } else {
            hi = mid;
        }
    }
    proof {
        assert((x as int) < (lo + 1) * (lo + 1)) by (nonlinear_arith)
            requires
                lo + 1 >= hi,
                (x as int) < hi * hi,
                hi >= 1,
        ;
        assert(lo < 0x1_0000_0000_0000_0000) by (nonlinear_arith)
            requires
                lo * lo <= x,
                x as int <= u128::MAX,
                lo < 0x1_0000_0000_0000_0001,
        ;
        lemma_sqrt_floor_is(x as int, lo as int);
    }
    lo as u64
}

/// The eigenvalues arrive largest first.
pub open spec fn sorted_desc(vals: Seq<i64>) -> bool {
    forall|a: int, b: int| 0 <= a <= b < vals.len() ==> vals[a] >= vals[b]
}

/// Scaled coordinate of one node on one axis: the eigenvector entry
/// times the square root of the eigenvalue, everything in thousandths.
pub open spec fn coord_of(v: i64, lambda: i64) -> int {
    let s = sqrt_floor(lambda * 1000);
    if v >= 0 {
        (v * s) / 1000
    } else {
        -(((-v) * s) / 1000)
    }
}

/// Scale the leading `k` eigenvectors into display coordinates: node
/// `i`'s coordinate on axis `c` is entry `i` of eigenvector `c` times
/// the square root of eigenvalue `c`.  Eigenvector entries are expected
/// in thousandths of a unit vector's, so they lie within one whole unit.
///
/// Fails with `NonEuclideanEmbedding` exactly when a selected eigenvalue
/// is negative, instead of producing undefined coordinates.
pub fn mds_coordinates(vals: &Vec<i64>, vecs: &Vec<Vec<i64>>, k: usize) -> (r: Result<
    Vec<Vec<i64>>,
    AcoError,
>)
    requires
        sorted_desc(vals@),
        vecs@.len() == vals@.len(),
        forall|c: int| 0 <= c < vecs@.len() ==> (#[trigger] vecs@[c])@.len() == vals@.len(),
        forall|c: int, i: int|
            0 <= c < vecs@.len() && 0 <= i < vals@.len() ==> -1000 <= (#[trigger] vecs@[c]@[i])
                <= 1000,
        k <= vals@.len(),
    ensures
        match r {
            Ok(coords) => {
                &&& forall|t: int| 0 <= t < k ==> #[trigger] vals@[t] >= 0
                &&& coords@.len() == vals@.len()
                &&& forall|i: int| 0 <= i < coords@.len() ==> (#[trigger] coords@[i])@.len() == k
                &&& forall|i: int, c: int|
                    0 <= i < coords@.len() && 0 <= c < k ==> (#[trigger] coords@[i]@[c])
                        == coord_of(vecs@[c]@[i], vals@[c])
            },
            Err(e) => {
                &&& e == AcoError::NonEuclideanEmbedding
                &&& exists|t: int| 0 <= t < k && #[trigger] vals@[t] < 0
            },
        },
        (forall|t: int| 0 <= t < k ==> #[trigger] vals@[t] >= 0) ==> r is Ok,
{
    let n = vals.len();
    if k > 0 {
        if vals[k - 1] < 0 {
            return Err(AcoError::NonEuclideanEmbedding);
        }
    }
    proof {
        assert forall|t: int| 0 <= t < k implies #[trigger] vals@[t] >= 0 by {
            assert(vals@[t] >= vals@[k - 1]);
        }
    }
    // Square roots of the selected eigenvalues, in thousandths.
    let mut scales: Vec<u64> = Vec::new();
    let mut c: usize = 0;
    while c < k
        invariant
            k <= vals@.len(),
            n == vals@.len(),
            forall|t: int| 0 <= t < k ==> #[trigger] vals@[t] >= 0,
            c <= k,
            scales@.len() == c,
            forall|t: int|
                0 <= t < c ==> #[trigger] scales@[t] as int == sqrt_floor(vals@[t] * 1000)
                    && (scales@[t] as int) * (scales@[t] as int) <= vals@[t] * 1000,
        decreases k - c,
    {
        let lam = vals[c];
        let s = isqrt((lam as u128) * 1000);
        scales.push(s);
        c = c + 1;
    }
    let mut coords: Vec<Vec<i64>> = Vec::new();
    let mut i: usize = 0;
    while i < n
        invariant
            k <= vals@.len(),
            n == vals@.len(),
            vecs@.len() == n,
            forall|q: int| 0 <= q < vecs@.len() ==> (#[trigger] vecs@[q])@.len() == n,
            forall|q: int, t: int|
                0 <= q < vecs@.len() && 0 <= t < n ==> -1000 <= (#[trigger] vecs@[q]@[t]) <= 1000,
            forall|t: int| 0 <= t < k ==> #[trigger] vals@[t] >= 0,
            scales@.len() == k,
            forall|t: int|
                0 <= t < k ==> #[trigger] scales@[t] as int == sqrt_floor(vals@[t] * 1000)
                    && (scales@[t] as int) * (scales@[t] as int) <= vals@[t] * 1000,
            i <= n,
            coords@.len() == i,
            forall|q: int| 0 <= q < i ==> (#[trigger] coords@[q])@.len() == k,
            forall|q: int, t: int|
                0 <= q < i && 0 <= t < k ==> (#[trigger] coords@[q]@[t]) == coord_of(
                    vecs@[t]@[q],
                    vals@[t],
                ),
        decreases n - i,
    {
        let mut row: Vec<i64> = Vec::new();
        let mut cc: usize = 0;
        while cc < k
            invariant
                k <= vals@.len(),
                n == vals@.len(),
                vecs@.len() == n,
                forall|q: int| 0 <= q < vecs@.len() ==> (#[trigger] vecs@[q])@.len() == n,
                forall|q: int, t: int|
                    0 <= q < vecs@.len() && 0 <= t < n ==> -1000 <= (#[trigger] vecs@[q]@[t])
                        <= 1000,
                forall|t: int| 0 <= t < k ==> #[trigger] vals@[t] >= 0,
                scales@.len() == k,
                forall|t: int|
                    0 <= t < k ==> #[trigger] scales@[t] as int == sqrt_floor(vals@[t] * 1000)
                        && (scales@[t] as int) * (scales@[t] as int) <= vals@[t] * 1000,
                i < n,
                cc <= k,
                row@.len() == cc,
                forall|t: int|
                    0 <= t < cc ==> (#[trigger] row@[t]) == coord_of(vecs@[t]@[i as int], vals@[t]),
            decreases k - cc,
        {
            let v = vecs[cc][i];
            let s = scales[cc];
            proof {
                assert(-1000 <= vecs@[cc as int]@[i as int] <= 1000);
                assert(s as int <= 100_000_000_000) by (nonlinear_arith)
                    requires
                        (s as int) * (s as int) <= (vals@[cc as int] as int) * 1000,
                        vals@[cc as int] as int <= 0x7fff_ffff_ffff_ffff,
                ;
            }
            let av: u64 = if v >= 0 {
                v as u64
            } else {
                (-v) as u64
            };
            proof {
                assert(0 <= (av as int) * (s as int) <= 100_000_000_000_000) by (nonlinear_arith)
                    requires
                        0 <= av <= 1000,
                        0 <= s as int <= 100_000_000_000,
                ;
                assert((av as int) * (s as int) / 1000 <= 100_000_000_000) by (nonlinear_arith)
                    requires 0 <= (av as int) * (s as int) <= 100_000_000_000_000,
                ;
            }
            let mag: u128 = (av as u128) * (s as u128) / 1000;
            let entry: i64 = if v >= 0 {
                mag as i64
            } else {
                -(mag as i64)
            };
            row.push(entry);
            cc = cc + 1;
        }
        coords.push(row);
        i = i + 1;
    }
    Ok(coords)
}

} // verus!
