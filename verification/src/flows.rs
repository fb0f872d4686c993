//! The flow matrix of a clustered instance.
//!
//! Every department gets a position on a line, and the flow between two
//! departments is the distance between their positions. The positions of a
//! cluster's departments are drawn once for the flows inside the cluster and
//! towards every later cluster; the positions of a later cluster's
//! departments are drawn anew for each earlier cluster that they face.

use vstd::prelude::*;
use crate::clusters::{first_of, total, cluster_of, lemma_cluster_of, lemma_clusters_in_order};
use crate::instance::{rows_of, is_square, is_symmetric, has_zero_diagonal, is_nonnegative};

verus! {

/// How far apart `p` and `q` are.
pub open spec fn distance(p: isize, q: isize) -> int {
    if p >= q {
        p - q
    } else {
        q - p
    }
}

/// The flow between two departments at `p` and `q`: their distance, which
/// wraps round where it is more than an `isize` holds.
pub open spec fn gap(p: isize, q: isize) -> isize {
    distance(p, q) as usize as isize
}

/// The flow is the same in both directions, there is none from a place to
/// itself, and it is the distance wherever the distance fits.
pub proof fn lemma_gap(p: isize, q: isize)
    ensures
        gap(p, q) == gap(q, p),
        gap(p, p) == 0,
        distance(p, q) <= isize::MAX ==> gap(p, q) == distance(p, q) && gap(p, q) >= 0,
{
}

/// The flow between two departments at `p` and `q`.
pub fn flow_between(p: isize, q: isize) -> (flow: isize)
    ensures
        flow == gap(p, q),
{
    let apart: i128 = if p >= q {
        p as i128 - q as i128
    } else {
        q as i128 - p as i128
    };
    #[verifier::truncate]
    (apart as usize as isize)
}

/// The department of cluster `a` that is the `i`-th of its cluster.
pub open spec fn department(sizes: Seq<usize>, a: int, i: int) -> int {
    first_of(sizes, a) + i
}

/// The positions that were drawn for the flows.
pub struct Positions {
    /// `own[a]` holds the positions of the departments of cluster `a`.
    pub own: Seq<Seq<isize>>,
    /// `facing[a][b]`, for `a < b`, holds the positions of the departments
    /// of cluster `b` where they face cluster `a`.
    pub facing: Seq<Seq<Seq<isize>>>,
}

impl Positions {
    /// There is one position for each department of each cluster.
    pub open spec fn fits(self, sizes: Seq<usize>) -> bool {
        &&& self.own.len() == sizes.len()
        &&& self.facing.len() == sizes.len()
        &&& forall|a: int| 0 <= a < sizes.len() ==> (#[trigger] self.own[a]).len() == sizes[a]
        &&& forall|a: int| 0 <= a < sizes.len() ==> (#[trigger] self.facing[a]).len() == sizes.len()
        &&& forall|a: int, b: int|
            0 <= a < b < sizes.len() ==> (#[trigger] self.facing[a][b]).len() == sizes[b]
    }

    /// The positions of the departments of cluster `b` where they face
    /// cluster `a`, for `a <= b`.
    pub open spec fn across(self, a: int, b: int) -> Seq<isize> {
        if a == b {
            self.own[a]
        } else {
            self.facing[a][b]
        }
    }

    /// No two departments whose flow is asked for stand further apart than
    /// an `isize` holds.
    pub open spec fn within_reach(self, sizes: Seq<usize>) -> bool {
        forall|a: int, i: int, b: int, j: int|
            0 <= a <= b < sizes.len() && 0 <= i < sizes[a] && 0 <= j < sizes[b] ==> #[trigger] distance(
                self.own[a][i],
                self.across(a, b)[j],
            ) <= isize::MAX
    }
}

/// The block of `matrix` between the clusters `a` and `b` holds, in both
/// directions, the flows between the departments of `a` at the positions
/// `rows` and those of `b` at the positions `columns`.
pub open spec fn is_block(
    matrix: Seq<Seq<isize>>,
    sizes: Seq<usize>,
    a: int,
    b: int,
    rows: Seq<isize>,
    columns: Seq<isize>,
) -> bool {
    forall|i: int, j: int|
        0 <= i < sizes[a] && 0 <= j < sizes[b] ==> {
            &&& matrix[#[trigger] department(sizes, a, i)][#[trigger] department(sizes, b, j)]
                == gap(rows[i], columns[j])
            &&& matrix[department(sizes, b, j)][department(sizes, a, i)] == gap(rows[i], columns[j])
        }
}

/// `matrix` holds, between each two departments, in both directions, the
/// flow that `positions` give.
pub open spec fn is_flow_matrix(matrix: Seq<Seq<isize>>, sizes: Seq<usize>, positions: Positions) -> bool {
    &&& total(sizes) >= 0
    &&& is_square(matrix, total(sizes) as nat)
    &&& forall|a: int, b: int|
        0 <= a <= b < sizes.len() ==> #[trigger] is_block(
            matrix,
            sizes,
            a,
            b,
            positions.own[a],
            positions.across(a, b),
        )
}

/// A flow matrix is square and symmetric, and its diagonal is zero.
pub proof fn lemma_flow_matrix_is_valid(
    matrix: Seq<Seq<isize>>,
    sizes: Seq<usize>,
    positions: Positions,
)
    requires
        is_flow_matrix(matrix, sizes, positions),
    ensures
        is_square(matrix, total(sizes) as nat),
        is_symmetric(matrix),
        has_zero_diagonal(matrix),
{
    assert forall|x: int, y: int| 0 <= x < matrix.len() && 0 <= y < matrix.len() implies #[trigger] matrix[x][y]
        == #[trigger] matrix[y][x] by {
        lemma_cluster_of(sizes, x);
        lemma_cluster_of(sizes, y);
        let a = cluster_of(sizes, x);
        let b = cluster_of(sizes, y);
        let i = x - first_of(sizes, a);
        let j = y - first_of(sizes, b);
        assert(department(sizes, a, i) == x);
        assert(department(sizes, b, j) == y);
        if a <= b {
            assert(is_block(matrix, sizes, a, b, positions.own[a], positions.across(a, b)));
        } else {
            assert(is_block(matrix, sizes, b, a, positions.own[b], positions.across(b, a)));
        }
    }
    assert forall|x: int| 0 <= x < matrix.len() implies (#[trigger] matrix[x])[x] == 0 by {
        lemma_cluster_of(sizes, x);
        let a = cluster_of(sizes, x);
        let i = x - first_of(sizes, a);
        assert(department(sizes, a, i) == x);
        assert(is_block(matrix, sizes, a, a, positions.own[a], positions.across(a, a)));
        lemma_gap(positions.own[a][i], positions.own[a][i]);
    }
}

/// The positions decide the flows: two flow matrices of the same positions
/// are one and the same.
pub proof fn lemma_positions_decide_flows(
    first: Seq<Seq<isize>>,
    second: Seq<Seq<isize>>,
    sizes: Seq<usize>,
    positions: Positions,
)
    requires
        is_flow_matrix(first, sizes, positions),
        is_flow_matrix(second, sizes, positions),
    ensures
        first == second,
{
    assert forall|x: int| 0 <= x < first.len() implies #[trigger] first[x] == second[x] by {
        assert forall|y: int| 0 <= y < first[x].len() implies first[x][y] == second[x][y] by {
            lemma_cluster_of(sizes, x);
            lemma_cluster_of(sizes, y);
            let a = cluster_of(sizes, x);
            let b = cluster_of(sizes, y);
            let i = x - first_of(sizes, a);
            let j = y - first_of(sizes, b);
            assert(department(sizes, a, i) == x);
            assert(department(sizes, b, j) == y);
            if a <= b {
                assert(is_block(first, sizes, a, b, positions.own[a], positions.across(a, b)));
                assert(is_block(second, sizes, a, b, positions.own[a], positions.across(a, b)));
            } else {
                assert(is_block(first, sizes, b, a, positions.own[b], positions.across(b, a)));
                assert(is_block(second, sizes, b, a, positions.own[b], positions.across(b, a)));
            }
        }
        assert(first[x] =~= second[x]);
    }
    assert(first =~= second);
}

/// A flow matrix has no negative entry, unless two departments stand
/// further apart than an `isize` holds.
pub proof fn lemma_flow_matrix_is_nonnegative(
    matrix: Seq<Seq<isize>>,
    sizes: Seq<usize>,
    positions: Positions,
)
    requires
        is_flow_matrix(matrix, sizes, positions),
        positions.within_reach(sizes),
    ensures
        is_nonnegative(matrix),
{
    assert forall|x: int, y: int| 0 <= x < matrix.len() && 0 <= y < matrix.len() implies #[trigger] matrix[x][y]
        >= 0 by {
        lemma_cluster_of(sizes, x);
        lemma_cluster_of(sizes, y);
        let a = cluster_of(sizes, x);
        let b = cluster_of(sizes, y);
        let i = x - first_of(sizes, a);
        let j = y - first_of(sizes, b);
        assert(department(sizes, a, i) == x);
        assert(department(sizes, b, j) == y);
        if a <= b {
            assert(is_block(matrix, sizes, a, b, positions.own[a], positions.across(a, b)));
            assert(distance(positions.own[a][i], positions.across(a, b)[j]) <= isize::MAX);
            lemma_gap(positions.own[a][i], positions.across(a, b)[j]);
        } else {
            assert(is_block(matrix, sizes, b, a, positions.own[b], positions.across(b, a)));
            assert(distance(positions.own[b][j], positions.across(b, a)[i]) <= isize::MAX);
            lemma_gap(positions.own[b][j], positions.across(b, a)[i]);
        }
    }
}

/// With one cluster only, the flow between any two departments is the
/// distance between two positions of one and the same draw.
pub proof fn lemma_single_cluster(matrix: Seq<Seq<isize>>, sizes: Seq<usize>, positions: Positions)
    requires
        sizes.len() == 1,
        is_flow_matrix(matrix, sizes, positions),
    ensures
        matrix.len() == sizes[0],
        forall|i: int, j: int|
            0 <= i < sizes[0] && 0 <= j < sizes[0] ==> #[trigger] matrix[i][j] == gap(
                positions.own[0][i],
                positions.own[0][j],
            ),
{
    assert(first_of(sizes, 0) == 0);
    assert(first_of(sizes, 1) == sizes[0]);
    assert(is_block(matrix, sizes, 0, 0, positions.own[0], positions.across(0, 0)));
    assert forall|i: int, j: int| 0 <= i < sizes[0] && 0 <= j < sizes[0] implies #[trigger] matrix[i][j]
        == gap(positions.own[0][i], positions.own[0][j]) by {
        assert(department(sizes, 0, i) == i);
        assert(department(sizes, 0, j) == j);
    }
}

/// What stands at row `x` and column `y` once the block of the rows from
/// `first_a` on and the columns from `first_b` on is filled, and its mirror
/// image with it.
pub open spec fn block_entry(
    before: Seq<Seq<isize>>,
    first_a: int,
    positions_a: Seq<isize>,
    first_b: int,
    positions_b: Seq<isize>,
    x: int,
    y: int,
) -> isize {
    if first_a <= x < first_a + positions_a.len() && first_b <= y < first_b + positions_b.len() {
        gap(positions_a[x - first_a], positions_b[y - first_b])
    } else if first_a <= y < first_a + positions_a.len() && first_b <= x < first_b
        + positions_b.len() {
        gap(positions_a[y - first_a], positions_b[x - first_b])
    } else {
        before[x][y]
    }
}

/// Once the block between the clusters `a` and `b` is filled, it holds
/// their flows.
pub(crate) proof fn lemma_filled_block(
    before: Seq<Seq<isize>>,
    after: Seq<Seq<isize>>,
    sizes: Seq<usize>,
    a: int,
    b: int,
    rows: Seq<isize>,
    columns: Seq<isize>,
)
    requires
        0 <= a <= b < sizes.len(),
        rows.len() == sizes[a],
        columns.len() == sizes[b],
        a == b ==> rows == columns,
        is_square(after, total(sizes) as nat),
        forall|x: int, y: int|
            0 <= x < total(sizes) && 0 <= y < total(sizes) ==> #[trigger] after[x][y]
                == block_entry(before, first_of(sizes, a), rows, first_of(sizes, b), columns, x, y),
    ensures
        is_block(after, sizes, a, b, rows, columns),
{
    assert forall|i: int, j: int| 0 <= i < sizes[a] && 0 <= j < sizes[b] implies {
        &&& after[#[trigger] department(sizes, a, i)][#[trigger] department(sizes, b, j)] == gap(
            rows[i],
            columns[j],
        )
        &&& after[department(sizes, b, j)][department(sizes, a, i)] == gap(rows[i], columns[j])
    } by {
        let x = department(sizes, a, i);
        let y = department(sizes, b, j);
        lemma_clusters_in_order(sizes, a, sizes.len() as int);
        lemma_clusters_in_order(sizes, b, sizes.len() as int);
        if a < b {
            lemma_clusters_in_order(sizes, a, b);
        }
        lemma_gap(rows[i], columns[j]);
        assert(after[x][y] == block_entry(
            before,
            first_of(sizes, a),
            rows,
            first_of(sizes, b),
            columns,
            x,
            y,
        ));
        assert(after[y][x] == block_entry(
            before,
            first_of(sizes, a),
            rows,
            first_of(sizes, b),
            columns,
            y,
            x,
        ));
    }
}

/// Filling the block between the clusters `a` and `b` leaves the block
/// between any other two clusters as it was.
pub(crate) proof fn lemma_kept_block(
    before: Seq<Seq<isize>>,
    after: Seq<Seq<isize>>,
    sizes: Seq<usize>,
    a: int,
    b: int,
    rows: Seq<isize>,
    columns: Seq<isize>,
    c: int,
    d: int,
    kept_rows: Seq<isize>,
    kept_columns: Seq<isize>,
)
    requires
        0 <= a <= b < sizes.len(),
        0 <= c <= d < sizes.len(),
        c != a || d != b,
        rows.len() == sizes[a],
        columns.len() == sizes[b],
        forall|x: int, y: int|
            0 <= x < total(sizes) && 0 <= y < total(sizes) ==> #[trigger] after[x][y]
                == block_entry(before, first_of(sizes, a), rows, first_of(sizes, b), columns, x, y),
        is_block(before, sizes, c, d, kept_rows, kept_columns),
    ensures
        is_block(after, sizes, c, d, kept_rows, kept_columns),
{
    assert forall|i: int, j: int| 0 <= i < sizes[c] && 0 <= j < sizes[d] implies {
        &&& after[#[trigger] department(sizes, c, i)][#[trigger] department(sizes, d, j)] == gap(
            kept_rows[i],
            kept_columns[j],
        )
        &&& after[department(sizes, d, j)][department(sizes, c, i)] == gap(
            kept_rows[i],
            kept_columns[j],
        )
    } by {
        let x = department(sizes, c, i);
        let y = department(sizes, d, j);
        lemma_clusters_in_order(sizes, c, sizes.len() as int);
        lemma_clusters_in_order(sizes, d, sizes.len() as int);
        lemma_apart(sizes, a, c);
        lemma_apart(sizes, a, d);
        lemma_apart(sizes, b, c);
        lemma_apart(sizes, b, d);
        assert(after[x][y] == block_entry(
            before,
            first_of(sizes, a),
            rows,
            first_of(sizes, b),
            columns,
            x,
            y,
        ));
        assert(after[y][x] == block_entry(
            before,
            first_of(sizes, a),
            rows,
            first_of(sizes, b),
            columns,
            y,
            x,
        ));
    }
}

/// Two different clusters have no department in common.
proof fn lemma_apart(sizes: Seq<usize>, a: int, b: int)
    requires
        0 <= a < sizes.len(),
        0 <= b < sizes.len(),
    ensures
        a != b ==> first_of(sizes, a) + sizes[a] <= first_of(sizes, b) || first_of(sizes, b)
            + sizes[b] <= first_of(sizes, a),
{
    if a < b {
        lemma_clusters_in_order(sizes, a, b);
    } else if b < a {
        lemma_clusters_in_order(sizes, b, a);
    }
}

/// As `block_entry`, when the rows before `i` are done and row `i` up to
/// column `j`.
spec fn partial_entry(
    before: Seq<Seq<isize>>,
    first_a: int,
    positions_a: Seq<isize>,
    first_b: int,
    positions_b: Seq<isize>,
    i: int,
    j: int,
    x: int,
    y: int,
) -> isize {
    if first_a <= x < first_a + positions_a.len() && first_b <= y < first_b + positions_b.len() && (
    x - first_a < i || (x - first_a == i && y - first_b < j)) {
        gap(positions_a[x - first_a], positions_b[y - first_b])
    } else if first_a <= y < first_a + positions_a.len() && first_b <= x < first_b
        + positions_b.len() && (y - first_a < i || (y - first_a == i && x - first_b < j)) {
        gap(positions_a[y - first_a], positions_b[x - first_b])
    } else {
        before[x][y]
    }
}

/// Writes `flow` at row `x` and column `y`.
fn set_entry(flows: &mut Vec<Vec<isize>>, x: usize, y: usize, flow: isize)
    requires
        x < old(flows)@.len(),
        y < old(flows)@[x as int]@.len(),
    ensures
        final(flows)@.len() == old(flows)@.len(),
        final(flows)@[x as int]@ == old(flows)@[x as int]@.update(y as int, flow),
        forall|k: int| 0 <= k < old(flows)@.len() && k != x ==> final(flows)@[k] == old(flows)@[k],
{
    flows[x][y] = flow;
}

/// Writes the flows between the departments from `first_a` on, which stand
/// at `positions_a`, and those from `first_b` on, which stand at
/// `positions_b`, in both directions. The two groups are one and the same,
/// or have no department in common.
pub(crate) fn fill_block(
    flows: &mut Vec<Vec<isize>>,
    first_a: usize,
    positions_a: &Vec<isize>,
    first_b: usize,
    positions_b: &Vec<isize>,
)
    requires
        is_square(rows_of(old(flows)@), old(flows)@.len()),
        first_a + positions_a@.len() <= old(flows)@.len(),
        first_b + positions_b@.len() <= old(flows)@.len(),
        (first_a == first_b && positions_a@ == positions_b@) || first_a + positions_a@.len()
            <= first_b || first_b + positions_b@.len() <= first_a,
    ensures
        is_square(rows_of(final(flows)@), old(flows)@.len()),
        forall|x: int, y: int|
            0 <= x < old(flows)@.len() && 0 <= y < old(flows)@.len() ==> #[trigger] rows_of(
                final(flows)@,
            )[x][y] == block_entry(
                rows_of(old(flows)@),
                first_a as int,
                positions_a@,
                first_b as int,
                positions_b@,
                x,
                y,
            ),
{
    let ghost before = rows_of(flows@);
    let n = flows.len();
    let mut i: usize = 0;
    while i < positions_a.len()
        invariant
            i <= positions_a@.len(),
            n == flows@.len(),
            before.len() == n,
            is_square(rows_of(flows@), n as nat),
            first_a + positions_a@.len() <= n,
            first_b + positions_b@.len() <= n,
            (first_a == first_b && positions_a@ == positions_b@) || first_a + positions_a@.len()
                <= first_b || first_b + positions_b@.len() <= first_a,
            forall|x: int, y: int|
                0 <= x < n && 0 <= y < n ==> #[trigger] rows_of(flows@)[x][y] == partial_entry(
                    before,
                    first_a as int,
                    positions_a@,
                    first_b as int,
                    positions_b@,
                    i as int,
                    0,
                    x,
                    y,
                ),
        decreases positions_a@.len() - i,
    {
        let mut j: usize = 0;
        while j < positions_b.len()
            invariant
                i < positions_a@.len(),
                j <= positions_b@.len(),
                n == flows@.len(),
                before.len() == n,
                is_square(rows_of(flows@), n as nat),
                first_a + positions_a@.len() <= n,
                first_b + positions_b@.len() <= n,
                (first_a == first_b && positions_a@ == positions_b@) || first_a
                    + positions_a@.len() <= first_b || first_b + positions_b@.len() <= first_a,
                forall|x: int, y: int|
                    0 <= x < n && 0 <= y < n ==> #[trigger] rows_of(flows@)[x][y] == partial_entry(
                        before,
                        first_a as int,
                        positions_a@,
                        first_b as int,
                        positions_b@,
                        i as int,
                        j as int,
                        x,
                        y,
                    ),
            decreases positions_b@.len() - j,
        {
            let row = first_a + i;
            let column = first_b + j;
            let flow = flow_between(positions_a[i], positions_b[j]);
            let ghost earlier = rows_of(flows@);
            assert(earlier[row as int].len() == n);
            assert(earlier[column as int].len() == n);
            set_entry(flows, row, column, flow);
            let ghost between = rows_of(flows@);
            assert forall|k: int| 0 <= k < n implies (#[trigger] between[k]).len() == n by {
                assert(earlier[k].len() == n);
            }
            set_entry(flows, column, row, flow);
            proof {
                lemma_gap(positions_a@[i as int], positions_b@[j as int]);
                let now = rows_of(flows@);
                assert forall|k: int| 0 <= k < n implies (#[trigger] now[k]).len() == n by {
                    assert(between[k].len() == n);
                }
                assert forall|x: int, y: int| 0 <= x < n && 0 <= y < n implies #[trigger] now[x][y]
                    == partial_entry(
                    before,
                    first_a as int,
                    positions_a@,
                    first_b as int,
                    positions_b@,
                    i as int,
                    j + 1,
                    x,
                    y,
                ) by {
                    assert(earlier[x][y] == partial_entry(
                        before,
                        first_a as int,
                        positions_a@,
                        first_b as int,
                        positions_b@,
                        i as int,
                        j as int,
                        x,
                        y,
                    ));
                    if (x == row && y == column) || (x == column && y == row) {
                        assert(now[x][y] == flow);
                    } else {
                        assert(between[x][y] == earlier[x][y]);
                        assert(now[x][y] == between[x][y]);
                    }
                }
            }
            j += 1;
        }
        i += 1;
    }
}

} // verus!
