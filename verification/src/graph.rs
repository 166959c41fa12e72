use vstd::prelude::*;
use crate::error::GraphError;

verus! {

/// The weight matrix that a vector of rows stands for.
pub open spec fn matrix_view(rows: Seq<Vec<u64>>) -> Seq<Seq<u64>> {
    Seq::new(rows.len(), |i: int| rows[i]@)
}

/// Whether `w` has exactly `n` rows of `n` entries each.
pub open spec fn is_square(w: Seq<Seq<u64>>, n: nat) -> bool {
    &&& w.len() == n
    &&& forall|i: int| 0 <= i < n ==> (#[trigger] w[i]).len() == n
}

/// Whether the square matrix `w` equals its transpose.
pub open spec fn is_mirrored(w: Seq<Seq<u64>>) -> bool {
    forall|i: int, j: int|
        0 <= i < w.len() && 0 <= j < w.len() ==> #[trigger] w[i][j] == #[trigger] w[j][i]
}

/// Whether row `i` of `w` has a column `j`.
pub open spec fn has_cell(w: Seq<Seq<u64>>, i: int, j: int) -> bool {
    0 <= i < w.len() && 0 <= j < w[i].len()
}

/// A matrix of `n` rows of `n` zeros.
pub open spec fn zero_matrix(n: nat) -> Seq<Seq<u64>> {
    Seq::new(n, |i: int| Seq::new(n, |j: int| 0u64))
}

/// The matrix `w` with a column of zeros and then a row of zeros added.
pub open spec fn grown(w: Seq<Seq<u64>>) -> Seq<Seq<u64>> {
    Seq::new(
        w.len() + 1,
        |i: int|
            if i < w.len() {
                w[i].push(0u64)
            } else {
                Seq::new(w.len() + 1, |j: int| 0u64)
            },
    )
}

/// The row `row` without its entry `k`, where it has one.
pub open spec fn without_entry(row: Seq<u64>, k: int) -> Seq<u64> {
    if 0 <= k < row.len() {
        row.remove(k)
    } else {
        row
    }
}

/// The matrix `w` without row `k` and without column `k`, as far as they
/// exist.
pub open spec fn pruned(w: Seq<Seq<u64>>, k: int) -> Seq<Seq<u64>> {
    if 0 <= k < w.len() {
        Seq::new((w.len() - 1) as nat, |i: int| without_entry(w[if i < k { i } else { i + 1 }], k))
    } else {
        Seq::new(w.len(), |i: int| without_entry(w[i], k))
    }
}

/// The matrix `w` with `x` written to cell `(i, j)`.
pub open spec fn with_cell(w: Seq<Seq<u64>>, i: int, j: int, x: u64) -> Seq<Seq<u64>> {
    w.update(i, w[i].update(j, x))
}

/// The matrix of the union of two square matrices: as large as both
/// together, with each positive cell of `o` in its own place, the cells of
/// `w` elsewhere in the range of `w`, and zeros in the rest.
pub open spec fn merged(w: Seq<Seq<u64>>, o: Seq<Seq<u64>>) -> Seq<Seq<u64>> {
    Seq::new(
        w.len() + o.len(),
        |i: int|
            Seq::new(
                w.len() + o.len(),
                |j: int|
                    if i < o.len() && j < o.len() && o[i][j] > 0 {
                        o[i][j]
                    } else if i < w.len() && j < w.len() {
                        w[i][j]
                    } else {
                        0u64
                    },
            ),
    )
}

/// The indices of the positive entries of `row`, in ascending order.
pub open spec fn positive_indices(row: Seq<u64>) -> Seq<usize>
    decreases row.len(),
{
    if row.len() == 0 {
        Seq::empty()
    } else if row.last() > 0 {
        positive_indices(row.drop_last()).push((row.len() - 1) as usize)
    } else {
        positive_indices(row.drop_last())
    }
}

/// `positive_indices(row)` holds `j` exactly when `row[j]` is positive, and
/// it is strictly ascending.
pub proof fn lemma_positive_indices(row: Seq<u64>)
    requires
        row.len() <= usize::MAX,
    ensures
        forall|j: usize| #[trigger]
            positive_indices(row).contains(j) <==> j < row.len() && row[j as int] > 0,
        forall|a: int, b: int|
            0 <= a < b < positive_indices(row).len() ==> positive_indices(row)[a]
                < positive_indices(row)[b],
        forall|a: int|
            0 <= a < positive_indices(row).len() ==> (#[trigger] positive_indices(row)[a])
                < row.len(),
        positive_indices(row).len() <= row.len(),
    decreases row.len(),
{
    if row.len() > 0 {
        let front = row.drop_last();
        lemma_positive_indices(front);
        let p = positive_indices(row);
        let q = positive_indices(front);
        let last = (row.len() - 1) as usize;
        assert forall|j: usize| #[trigger] p.contains(j) <==> j < row.len() && row[j as int] > 0 by {
            if j < row.len() && row[j as int] > 0 {
                if j < front.len() {
                    assert(front[j as int] == row[j as int]);
                    assert(q.contains(j));
                    let k = choose|k: int| 0 <= k < q.len() && q[k] == j;
                    assert(p[k] == j);
                } else {
                    assert(p[p.len() - 1] == j);
                }
            }
            if p.contains(j) {
                let k = choose|k: int| 0 <= k < p.len() && p[k] == j;
                if k < q.len() {
                    assert(q[k] == j);
                    assert(q.contains(j));
                    assert(front[j as int] == row[j as int]);
                } else {
                    assert(j == last);
                }
            }
        }
    }
}

/// A weighted graph on vertices `0..n`, stored as a dense matrix in which a
/// zero entry means that there is no edge.
pub struct Graph<V> {
    vertices: Vec<V>,
    adjacency_matrix: Vec<Vec<u64>>,
}

impl<V> Graph<V> {
    /// The vertex labels, by index.
    pub closed spec fn labels(&self) -> Seq<V> {
        self.vertices@
    }

    /// The weight matrix, row by row.
    pub closed spec fn weights(&self) -> Seq<Seq<u64>> {
        matrix_view(self.adjacency_matrix@)
    }

    /// The number of vertices.
    pub open spec fn order(&self) -> nat {
        self.labels().len()
    }

    /// Whether the matrix has one row and one column per vertex.
    pub open spec fn squared(&self) -> bool {
        is_square(self.weights(), self.order())
    }

    /// Whether the graph is square and every edge has the same weight in
    /// both directions.
    pub open spec fn symmetric(&self) -> bool {
        self.squared() && is_mirrored(self.weights())
    }

    /// Whether `i` and `j` are vertices and the matrix holds a cell for them.
    pub open spec fn addresses(&self, i: int, j: int) -> bool {
        i < self.order() && j < self.order() && has_cell(self.weights(), i, j)
    }

    /// A graph without vertices.
    pub fn new() -> (g: Self)
        ensures
            g.labels() == Seq::<V>::empty(),
            g.weights() == Seq::<Seq<u64>>::empty(),
            g.squared(),
    {
        let g = Graph { vertices: Vec::new(), adjacency_matrix: Vec::new() };
        assert(g.weights() =~= Seq::<Seq<u64>>::empty());
        g
    }

    /// The graph with the given labels and weight matrix, taken as they are.
    pub fn from(vertices: Vec<V>, adjacency_matrix: Vec<Vec<u64>>) -> (g: Self)
        ensures
            g.labels() == vertices@,
            g.weights() == matrix_view(adjacency_matrix@),
    {
        Graph { vertices, adjacency_matrix }
    }

    /// The weight matrix as stored.
    pub fn get_adjacency_matrix(&self) -> (m: &Vec<Vec<u64>>)
        ensures
            matrix_view(m@) == self.weights(),
    {
        &self.adjacency_matrix
    }

    /// The number of vertices.
    pub fn num_vertices(&self) -> (n: usize)
        ensures
            n == self.order(),
    {
        self.vertices.len()
    }

    /// Whether the matrix has one row and one column per vertex.
    pub fn is_squared(&self) -> (b: bool)
        ensures
            b == self.squared(),
    {
        let n: usize = self.vertices.len();
        if self.adjacency_matrix.len() != n {
            return false;
        }
        let mut i: usize = 0;
        while i < n
            invariant
                i <= n,
                n == self.vertices.len(),
                n == self.adjacency_matrix.len(),
                forall|k: int| 0 <= k < i ==> (#[trigger] self.weights()[k]).len() == n,
            decreases n - i,
        {
            if self.adjacency_matrix[i].len() != n {
                assert(self.weights()[i as int].len() != n);
                return false;
            }
            i += 1;
        }
        true
    }

    /// Whether the graph is square with a matrix equal to its transpose.
    pub fn is_symmetric(&self) -> (b: bool)
        ensures
            b == self.symmetric(),
    {
        if !self.is_squared() {
            return false;
        }
        let n: usize = self.vertices.len();
        let mut i: usize = 0;
        while i < n
            invariant
                i <= n,
                n == self.order(),
                self.squared(),
                forall|a: int, b: int|
                    0 <= a < i && 0 <= b < n ==> #[trigger] self.weights()[a][b]
                        == #[trigger] self.weights()[b][a],
            decreases n - i,
        {
            let mut j: usize = 0;
            while j < n
                invariant
                    i < n,
                    j <= n,
                    n == self.order(),
                    self.squared(),
                    forall|a: int, b: int|
                        0 <= a < i && 0 <= b < n ==> #[trigger] self.weights()[a][b]
                            == #[trigger] self.weights()[b][a],
                    forall|b: int|
                        0 <= b < j ==> #[trigger] self.weights()[i as int][b]
                            == self.weights()[b][i as int],
                decreases n - j,
            {
                assert(self.weights()[i as int].len() == n);
                assert(self.weights()[j as int].len() == n);
                if self.adjacency_matrix[i][j] != self.adjacency_matrix[j][i] {
                    assert(self.weights()[i as int][j as int] != self.weights()[j as int][i as int]);
                    return false;
                }
                j += 1;
            }
            i += 1;
        }
        true
    }

    /// The label of vertex `vertex_idx`.
    pub fn get_vertex(&self, vertex_idx: usize) -> (r: Result<&V, GraphError>)
        ensures
            vertex_idx < self.order() ==> r == Ok::<&V, GraphError>(&self.labels()[vertex_idx as int]),
            vertex_idx >= self.order() ==> r == Err::<&V, GraphError>(GraphError::OutOfRange),
    {
        if self.vertices.len() <= vertex_idx {
            return Err(GraphError::OutOfRange);
        }
        Ok(&self.vertices[vertex_idx])
    }

    /// The weight stored for the edge from `src_idx` to `dst_idx`; zero
    /// means that there is none.
    pub fn get_edge_weight(&self, src_idx: usize, dst_idx: usize) -> (r: Result<u64, GraphError>)
        ensures
            self.addresses(src_idx as int, dst_idx as int) ==> r == Ok::<u64, GraphError>(
                self.weights()[src_idx as int][dst_idx as int],
            ),
            !self.addresses(src_idx as int, dst_idx as int) ==> r == Err::<u64, GraphError>(
                GraphError::OutOfRange,
            ),
    {
        let n: usize = self.vertices.len();
        if n <= src_idx || n <= dst_idx {
            return Err(GraphError::OutOfRange);
        }
        if self.adjacency_matrix.len() <= src_idx {
            return Err(GraphError::OutOfRange);
        }
        if self.adjacency_matrix[src_idx].len() <= dst_idx {
            return Err(GraphError::OutOfRange);
        }
        Ok(self.adjacency_matrix[src_idx][dst_idx])
    }

    /// Adds a vertex with the given label and no edges: every row gets a
    /// zero at its end, and a row of zeros is added.
    pub fn insert_vertex(&mut self, vertex: V)
        ensures
            final(self).labels() == old(self).labels().push(vertex),
            final(self).weights() == grown(old(self).weights()),
            old(self).squared() ==> final(self).squared(),
    {
        self.vertices.push(vertex);
        let rows: usize = self.adjacency_matrix.len();
        let mut i: usize = 0;
        while i < rows
            invariant
                i <= rows,
                rows == self.adjacency_matrix.len(),
                rows == old(self).adjacency_matrix.len(),
                self.vertices@ == old(self).vertices@.push(vertex),
                forall|k: int|
                    0 <= k < i ==> (#[trigger] self.adjacency_matrix[k])@ == old(
                        self,
                    ).adjacency_matrix[k]@.push(0u64),
                forall|k: int|
                    i <= k < rows ==> (#[trigger] self.adjacency_matrix[k])@ == old(
                        self,
                    ).adjacency_matrix[k]@,
            decreases rows - i,
        {
            self.adjacency_matrix[i].push(0);
            i += 1;
        }
        self.adjacency_matrix.push(Vec::new());
        let total: usize = self.adjacency_matrix.len();
        self.adjacency_matrix[rows] = zero_row(total);
        assert(self.weights() =~= grown(old(self).weights()));
    }

    /// Removes vertex `vertex_index` together with its row and its column.
    /// Nothing changes when there is no such vertex.
    pub fn remove_vertex(&mut self, vertex_index: usize) -> (r: Result<(), GraphError>)
        ensures
            vertex_index >= old(self).order() ==> r == Err::<(), GraphError>(GraphError::OutOfRange)
                && *final(self) == *old(self),
            vertex_index < old(self).order() ==> r == Ok::<(), GraphError>(())
                && final(self).labels() == old(self).labels().remove(vertex_index as int)
                && final(self).weights() == pruned(old(self).weights(), vertex_index as int),
            old(self).squared() ==> final(self).squared(),
    {
        if self.vertices.len() <= vertex_index {
            return Err(GraphError::OutOfRange);
        }
        self.vertices.remove(vertex_index);
        if vertex_index < self.adjacency_matrix.len() {
            self.adjacency_matrix.remove(vertex_index);
        }
        let rows: usize = self.adjacency_matrix.len();
        let ghost before = self.adjacency_matrix@;
        let mut i: usize = 0;
        while i < rows
            invariant
                i <= rows,
                rows == self.adjacency_matrix.len(),
                rows == before.len(),
                self.vertices@ == old(self).vertices@.remove(vertex_index as int),
                forall|k: int|
                    0 <= k < i ==> (#[trigger] self.adjacency_matrix[k])@ == without_entry(
                        before[k]@,
                        vertex_index as int,
                    ),
                forall|k: int| i <= k < rows ==> (#[trigger] self.adjacency_matrix[k])@ == before[k]@,
            decreases rows - i,
        {
            if vertex_index < self.adjacency_matrix[i].len() {
                self.adjacency_matrix[i].remove(vertex_index);
            }
            i += 1;
        }
        assert(self.weights() =~= pruned(old(self).weights(), vertex_index as int));
        Ok(())
    }

    /// Writes `edge_weight` to the cell from `src_idx` to `dst_idx`, and to
    /// the opposite cell too when `symmetric` is set. Nothing changes when a
    /// cell to be written does not exist.
    pub fn insert_edge(
        &mut self,
        src_idx: usize,
        dst_idx: usize,
        edge_weight: u64,
        symmetric: bool,
    ) -> (r: Result<(), GraphError>)
        ensures
            final(self).labels() == old(self).labels(),
            r is Err <==> !(old(self).addresses(src_idx as int, dst_idx as int) && (symmetric
                ==> old(self).addresses(dst_idx as int, src_idx as int))),
            r is Err ==> r == Err::<(), GraphError>(GraphError::OutOfRange) && final(self).weights()
                == old(self).weights(),
            r is Ok && !symmetric ==> final(self).weights() == with_cell(
                old(self).weights(),
                src_idx as int,
                dst_idx as int,
                edge_weight,
            ),
            r is Ok && symmetric ==> final(self).weights() == with_cell(
                with_cell(old(self).weights(), src_idx as int, dst_idx as int, edge_weight),
                dst_idx as int,
                src_idx as int,
                edge_weight,
            ),
    {
        let n: usize = self.vertices.len();
        if n <= src_idx || n <= dst_idx {
            return Err(GraphError::OutOfRange);
        }
        if self.adjacency_matrix.len() <= src_idx || self.adjacency_matrix[src_idx].len()
            <= dst_idx {
            return Err(GraphError::OutOfRange);
        }
        if symmetric && (self.adjacency_matrix.len() <= dst_idx
            || self.adjacency_matrix[dst_idx].len() <= src_idx) {
            return Err(GraphError::OutOfRange);
        }
        self.adjacency_matrix[src_idx][dst_idx] = edge_weight;
        assert(self.weights() =~= with_cell(
            old(self).weights(),
            src_idx as int,
            dst_idx as int,
            edge_weight,
        ));
        if symmetric {
            let ghost mid = self.weights();
            self.adjacency_matrix[dst_idx][src_idx] = edge_weight;
            assert(self.weights() =~= with_cell(mid, dst_idx as int, src_idx as int, edge_weight));
        }
        Ok(())
    }

    /// Clears the cell from `src_idx` to `dst_idx`, and the opposite cell
    /// too when `symmetric` is set. Nothing changes when a cell to be
    /// cleared does not exist.
    pub fn remove_edge(&mut self, src_idx: usize, dst_idx: usize, symmetric: bool) -> (r: Result<
        (),
        GraphError,
    >)
        ensures
            final(self).labels() == old(self).labels(),
            r is Err <==> !(old(self).addresses(src_idx as int, dst_idx as int) && (symmetric
                ==> old(self).addresses(dst_idx as int, src_idx as int))),
            r is Err ==> r == Err::<(), GraphError>(GraphError::OutOfRange) && final(self).weights()
                == old(self).weights(),
            r is Ok && !symmetric ==> final(self).weights() == with_cell(
                old(self).weights(),
                src_idx as int,
                dst_idx as int,
                0u64,
            ),
            r is Ok && symmetric ==> final(self).weights() == with_cell(
                with_cell(old(self).weights(), src_idx as int, dst_idx as int, 0u64),
                dst_idx as int,
                src_idx as int,
                0u64,
            ),
    {
        self.insert_edge(src_idx, dst_idx, 0, symmetric)
    }

    /// Takes every vertex and every edge of `other` into this graph: the
    /// vertices of `other` are added after the present ones, labels repeated
    /// where they were there already, and each edge of `other` is written to
    /// the cell it had in `other`. Nothing changes unless both graphs are
    /// square.
    pub fn union(&mut self, other: Self) -> (r: Result<(), GraphError>)
        ensures
            r is Err <==> !(old(self).squared() && other.squared()),
            r is Err ==> r == Err::<(), GraphError>(GraphError::NotSquare) && *final(self) == *old(
                self,
            ),
            r is Ok ==> final(self).labels() == old(self).labels() + other.labels()
                && final(self).weights() == merged(old(self).weights(), other.weights())
                && final(self).squared(),
    {
        if !self.is_squared() || !other.is_squared() {
            return Err(GraphError::NotSquare);
        }
        let n: usize = self.vertices.len();
        let m: usize = other.vertices.len();
        let mut other = other;
        let ghost w = self.weights();
        let ghost o = other.weights();
        self.vertices.append(&mut other.vertices);
        let total: usize = self.vertices.len();
        let mut rows: Vec<Vec<u64>> = Vec::new();
        let mut i: usize = 0;
        while i < total
            invariant
                i <= total,
                total == n + m,
                rows.len() == i,
                w == self.weights(),
                o == matrix_view(other.adjacency_matrix@),
                is_square(w, n as nat),
                is_square(o, m as nat),
                forall|k: int| 0 <= k < i ==> (#[trigger] rows[k])@ == merged(w, o)[k],
            decreases total - i,
        {
            let mut row: Vec<u64> = Vec::new();
            let mut j: usize = 0;
            while j < total
                invariant
                    i < total,
                    j <= total,
                    total == n + m,
                    row.len() == j,
                    w == self.weights(),
                    o == matrix_view(other.adjacency_matrix@),
                    is_square(w, n as nat),
                    is_square(o, m as nat),
                    forall|c: int| 0 <= c < j ==> #[trigger] row[c] == merged(w, o)[i as int][c],
                decreases total - j,
            {
                assert(i < m ==> o[i as int].len() == m);
                assert(i < n ==> w[i as int].len() == n);
                let x: u64 = if i < m && j < m && other.adjacency_matrix[i][j] > 0 {
                    other.adjacency_matrix[i][j]
                } else if i < n && j < n {
                    self.adjacency_matrix[i][j]
                } else {
                    0
                };
                row.push(x);
                j += 1;
            }
            assert(row@ =~= merged(w, o)[i as int]);
            rows.push(row);
            i += 1;
        }
        self.adjacency_matrix = rows;
        assert(self.weights() =~= merged(w, o));
        Ok(())
    }

    /// The vertices to which `vertex_idx` has an edge, in ascending order.
    pub fn get_adjacent_vertices(&self, vertex_idx: usize) -> (r: Result<Vec<usize>, GraphError>)
        ensures
            vertex_idx >= self.order() ==> r == Err::<Vec<usize>, GraphError>(
                GraphError::OutOfRange,
            ),
            vertex_idx < self.order() && !self.squared() ==> r == Err::<Vec<usize>, GraphError>(
                GraphError::NotSquare,
            ),
            vertex_idx < self.order() && self.squared() ==> r is Ok && r->Ok_0@
                == positive_indices(self.weights()[vertex_idx as int]),
            vertex_idx < self.order() && self.squared() ==> forall|j: usize| #[trigger]
                r->Ok_0@.contains(j) <==> j < self.order() && self.weights()[vertex_idx as int][j as int]
                    > 0,
    {
        if self.vertices.len() <= vertex_idx {
            return Err(GraphError::OutOfRange);
        }
        if !self.is_squared() {
            return Err(GraphError::NotSquare);
        }
        proof {
            assert(self.weights()[vertex_idx as int].len() == self.order());
            lemma_positive_indices(self.weights()[vertex_idx as int]);
        }
        Ok(row_neighbours(&self.adjacency_matrix[vertex_idx]))
    }
}

/// The indices of the positive entries of `row`, in ascending order.
pub fn row_neighbours(row: &Vec<u64>) -> (out: Vec<usize>)
    ensures
        out@ == positive_indices(row@),
{
    let mut out: Vec<usize> = Vec::new();
    let mut j: usize = 0;
    while j < row.len()
        invariant
            j <= row.len(),
            out@ == positive_indices(row@.take(j as int)),
        decreases row.len() - j,
    {
        assert(row@.take(j + 1).drop_last() =~= row@.take(j as int));
        if row[j] > 0 {
            out.push(j);
        }
        j += 1;
    }
    assert(row@.take(row.len() as int) =~= row@);
    out
}

/// Whether `b` holds a clone of each label of `a`, in the same order.
pub open spec fn same_labels<V: Clone>(a: Seq<V>, b: Seq<V>) -> bool {
    &&& a.len() == b.len()
    &&& forall|i: int| 0 <= i < a.len() ==> cloned(#[trigger] a[i], b[i])
}

impl<V: Clone> Graph<V> {
    /// A graph with clones of the labels of this graph and with the given
    /// weight matrix.
    pub fn with_matrix(&self, adjacency_matrix: Vec<Vec<u64>>) -> (g: Self)
        ensures
            same_labels(self.labels(), g.labels()),
            g.weights() == matrix_view(adjacency_matrix@),
    {
        Graph { vertices: self.vertices.clone(), adjacency_matrix }
    }
}

/// A matrix of `n` rows of `n` zeros.
pub fn zero_rows(n: usize) -> (rows: Vec<Vec<u64>>)
    ensures
        matrix_view(rows@) == zero_matrix(n as nat),
{
    let mut rows: Vec<Vec<u64>> = Vec::new();
    let mut i: usize = 0;
    while i < n
        invariant
            i <= n,
            rows.len() == i,
            forall|k: int| 0 <= k < i ==> (#[trigger] rows[k])@ == Seq::new(n as nat, |j: int| 0u64),
        decreases n - i,
    {
        rows.push(zero_row(n));
        i += 1;
    }
    assert(matrix_view(rows@) =~= zero_matrix(n as nat));
    rows
}

/// A row of `len` zeros.
pub fn zero_row(len: usize) -> (row: Vec<u64>)
    ensures
        row@ == Seq::new(len as nat, |j: int| 0u64),
{
    let row = vec![0u64; len];
    assert(row@ =~= Seq::new(len as nat, |j: int| 0u64));
    row
}

} // verus!
