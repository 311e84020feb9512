//! The embedding index: an immutable space-partitioning tree over a
//! fixed collection of company embeddings, answering k-nearest-
//! neighbour queries.
//!
//! Build policy (fixed, documented): the splitting axis cycles through
//! the dimensions (`axis + 1` modulo the dimension per level), the
//! pivot is the median of the current subset along that axis, points
//! strictly below the pivot value go left and the rest go right. The
//! query walks the tree, keeps the best `k` candidates found so far,
//! and prunes any subtree whose splitting hyperplane is already
//! farther away than the worst kept candidate; ties in distance are
//! broken by the smaller insertion index, so results are
//! deterministic.

use vstd::prelude::*;
use vstd::math::min;
use vstd::set_lib::{lemma_int_range, lemma_len_subset, set_int_range};
use crate::distance::{sq_dist, within_limit, DIM_LIMIT, EMBED_LIMIT};
use crate::errors::MatchError;
use crate::records::EmbeddedCompany;

verus! {

/// One query result: the insertion index of a stored point and its
/// squared distance from the query vector.
#[derive(Clone, Copy, Debug, PartialEq, Eq, Structural)]
pub struct Neighbor {
    pub index: usize,
    pub sq_distance: i64,
}

/// Strict order on (distance, insertion index) pairs: nearer first,
/// ties broken towards the earlier insertion index.
pub open spec fn pair_lt(d1: int, i1: int, d2: int, i2: int) -> bool {
    d1 < d2 || (d1 == d2 && i1 < i2)
}

/// `n` refers to a stored point and carries its true squared distance
/// from `q`.
pub open spec fn neighbor_ok(n: Neighbor, points: Seq<EmbeddedCompany>, q: Seq<i64>) -> bool {
    &&& (n.index as int) < points.len()
    &&& n.sq_distance as int == sq_dist(q, points[n.index as int].embedding@)
}

/// The result list ascends strictly in the (distance, index) order.
pub open spec fn result_sorted(res: Seq<Neighbor>) -> bool {
    forall|a: int, b: int|
        0 <= a < b < res.len() ==> pair_lt(
            (#[trigger] res[a]).sq_distance as int,
            res[a].index as int,
            (#[trigger] res[b]).sq_distance as int,
            res[b].index as int,
        )
}

/// Some entry of `res` refers to stored point `j`.
pub open spec fn contains_index(res: Seq<Neighbor>, j: int) -> bool {
    exists|m: int| 0 <= m < res.len() && (#[trigger] res[m]).index as int == j
}

/// Every stored point that is missing from `res` is beaten by every
/// entry of `res` in the (distance, index) order.
pub open spec fn knn_complete(res: Seq<Neighbor>, points: Seq<EmbeddedCompany>, q: Seq<i64>) -> bool {
    forall|j: int|
        0 <= j < points.len() && !contains_index(res, j) ==> (forall|m: int|
            0 <= m < res.len() ==> pair_lt(
                (#[trigger] res[m]).sq_distance as int,
                res[m].index as int,
                sq_dist(q, points[j].embedding@),
                j,
            ))
}

/// The full query contract: `res` holds `min(k, N)` entries, each a
/// stored point with its true squared distance, strictly ascending in
/// the (distance, index) order, and no point outside `res` beats any
/// entry. These clauses pin `res` down to the `k` nearest stored
/// points, nearest first, ties by insertion order.
pub open spec fn knn_post(res: Seq<Neighbor>, points: Seq<EmbeddedCompany>, q: Seq<i64>, k: int) -> bool {
    &&& res.len() == min(k, points.len() as int)
    &&& forall|m: int| 0 <= m < res.len() ==> neighbor_ok(#[trigger] res[m], points, q)
    &&& result_sorted(res)
    &&& knn_complete(res, points, q)
}

/// The space-partitioning tree. Each node stores the insertion index
/// of its pivot point and the axis it splits on.
#[derive(Debug)]
enum Tree {
    Leaf,
    Node { point: usize, axis: usize, left: Box<Tree>, right: Box<Tree> },
}

/// Point `j` sits somewhere in `t`.
spec fn tree_contains(t: Tree, j: int) -> bool
    decreases t,
{
    match t {
        Tree::Leaf => false,
        Tree::Node { point, axis, left, right } => point as int == j || tree_contains(*left, j)
            || tree_contains(*right, j),
    }
}

/// Structural invariant: indices and axes are in range, the left
/// subtree is strictly below the pivot value on the split axis, the
/// right subtree is at or above it, and no point occurs twice.
spec fn tree_wf(t: Tree, points: Seq<EmbeddedCompany>, dim: int) -> bool
    decreases t,
{
    match t {
        Tree::Leaf => true,
        Tree::Node { point, axis, left, right } => {
            &&& (point as int) < points.len()
            &&& (axis as int) < dim
            &&& tree_wf(*left, points, dim)
            &&& tree_wf(*right, points, dim)
            &&& forall|j: int|
                tree_contains(*left, j) ==> 0 <= j < points.len()
                    && points[j].embedding@[axis as int] < points[point as int].embedding@[
                    axis as int]
            &&& forall|j: int|
                tree_contains(*right, j) ==> 0 <= j < points.len()
                    && points[j].embedding@[axis as int] >= points[point as int].embedding@[
                    axis as int]
            &&& !tree_contains(*left, point as int)
            &&& !tree_contains(*right, point as int)
            &&& forall|j: int| !(tree_contains(*left, j) && tree_contains(*right, j))
        },
    }
}

/// Fixed-point value of stored point `j` along `axis`.
spec fn axis_key(points: Seq<EmbeddedCompany>, axis: int, j: int) -> int {
    points[j].embedding@[axis] as int
}

/// The index sequence `s` ascends (weakly) by axis key.
spec fn sorted_by_key(points: Seq<EmbeddedCompany>, axis: int, s: Seq<usize>) -> bool {
    forall|a: int, b: int|
        0 <= a <= b < s.len() ==> axis_key(points, axis, #[trigger] s[a] as int) <= axis_key(
            points,
            axis,
            #[trigger] s[b] as int,
        )
}

/// All entries of `s` are valid point indices.
spec fn valid_idxs(s: Seq<usize>, n: int) -> bool {
    forall|m: int| 0 <= m < s.len() ==> (#[trigger] s[m] as int) < n
}

/// Swapping two positions keeps length, membership, bounds and
/// distinctness.
proof fn lemma_swap_props(s: Seq<usize>, t: Seq<usize>, a: int, b: int)
    requires
        0 <= a < s.len(),
        0 <= b < s.len(),
        t == s.update(a, s[b]).update(b, s[a]),
    ensures
        t.len() == s.len(),
        forall|x: usize| t.contains(x) <==> s.contains(x),
        s.no_duplicates() ==> t.no_duplicates(),
        forall|n: int| valid_idxs(s, n) ==> valid_idxs(t, n),
{
    assert forall|x: usize| t.contains(x) implies s.contains(x) by {
        let m = choose|m: int| 0 <= m < t.len() && t[m] == x;
        if m == b {
            assert(s[a] == x);
        } else if m == a {
            assert(s[b] == x);
        } else {
            assert(s[m] == x);
        }
    }
    assert forall|x: usize| s.contains(x) implies t.contains(x) by {
        let m = choose|m: int| 0 <= m < s.len() && s[m] == x;
        if m == b {
            assert(t[a] == x);
        } else if m == a {
            assert(t[b] == x);
        } else {
            assert(t[m] == x);
        }
    }
    if s.no_duplicates() {
        assert forall|i: int, j: int| 0 <= i < t.len() && 0 <= j < t.len() && i != j implies t[i]
            != t[j] by {
            if i == a {
                assert(t[i] == if a == b { s[a] } else { s[b] });
            }
        }
    }
    assert forall|n: int| valid_idxs(s, n) implies valid_idxs(t, n) by {
        assert forall|m: int| 0 <= m < t.len() implies (t[m] as int) < n by {
            if m == a {
            } else if m == b {
            }
        }
    }
}

/// Value of stored point `j` along `axis`, read off its embedding.
fn key_at(points: &Vec<EmbeddedCompany>, dim: usize, axis: usize, j: usize) -> (r: i64)
    requires
        (j as int) < points@.len(),
        (axis as int) < dim as int,
        points@[j as int].wf(dim as int),
    ensures
        r as int == axis_key(points@, axis as int, j as int),
{
    points[j].embedding[axis]
}

/// Insertion sort of point indices by their value along `axis`,
/// realising the median selection of the build step. Returns the same
/// indices, weakly ascending by axis key.
fn sort_by_axis(points: &Vec<EmbeddedCompany>, idxs: Vec<usize>, axis: usize, dim: usize) -> (r:
    Vec<usize>)
    requires
        (axis as int) < dim as int,
        forall|m: int| 0 <= m < points@.len() ==> (#[trigger] points@[m]).wf(dim as int),
        valid_idxs(idxs@, points@.len() as int),
        idxs@.no_duplicates(),
    ensures
        r@.len() == idxs@.len(),
        forall|x: usize| r@.contains(x) <==> idxs@.contains(x),
        r@.no_duplicates(),
        valid_idxs(r@, points@.len() as int),
        sorted_by_key(points@, axis as int, r@),
{
    let mut v = idxs;
    let n = v.len();
    if n == 0 {
        return v;
    }
    let mut i: usize = 1;
    while i < n
        invariant
            1 <= i <= n,
            n == v@.len(),
            (axis as int) < dim as int,
            forall|m: int| 0 <= m < points@.len() ==> (#[trigger] points@[m]).wf(dim as int),
            valid_idxs(v@, points@.len() as int),
            v@.no_duplicates(),
            forall|x: usize| v@.contains(x) <==> idxs@.contains(x),
            sorted_by_key(points@, axis as int, v@.take(i as int)),
        decreases n - i,
    {
        let mut j: usize = i;
        proof {
            assert forall|a: int, b: int|
                0 <= a <= b <= i as int && a != i as int && b != i as int implies axis_key(
                points@,
                axis as int,
                v@[a] as int,
            ) <= axis_key(points@, axis as int, v@[b] as int) by {
                assert(v@.take(i as int)[a] == v@[a]);
                assert(v@.take(i as int)[b] == v@[b]);
            }
        }
        while j > 0 && key_at(points, dim, axis, v[j - 1]) > key_at(points, dim, axis, v[j])
            invariant
                0 <= j <= i < n,
                n == v@.len(),
                (axis as int) < dim as int,
                forall|m: int| 0 <= m < points@.len() ==> (#[trigger] points@[m]).wf(dim as int),
                valid_idxs(v@, points@.len() as int),
                v@.no_duplicates(),
                forall|x: usize| v@.contains(x) <==> idxs@.contains(x),
                forall|a: int, b: int|
                    0 <= a <= b <= i as int && a != j as int && b != j as int ==> axis_key(
                        points@,
                        axis as int,
                        #[trigger] v@[a] as int,
                    ) <= axis_key(points@, axis as int, #[trigger] v@[b] as int),
                forall|b: int|
                    (j as int) < b <= i as int ==> axis_key(points@, axis as int, v@[j as int] as int)
                        <= axis_key(points@, axis as int, #[trigger] v@[b] as int),
            decreases j,
        {
            let ghost sold = v@;
            let x = v[j - 1];
            let y = v[j];
            v.set(j - 1, y);
            v.set(j, x);
            proof {
                lemma_swap_props(sold, v@, j - 1, j as int);
            }
            j = j - 1;
        }
        proof {
            assert forall|a: int, b: int| 0 <= a <= b < i + 1 implies axis_key(
                points@,
                axis as int,
                #[trigger] v@.take(i + 1)[a] as int,
            ) <= axis_key(points@, axis as int, #[trigger] v@.take(i + 1)[b] as int) by {
                assert(v@.take(i + 1)[a] == v@[a]);
                assert(v@.take(i + 1)[b] == v@[b]);
                if a == j as int {
                } else if b == j as int {
                    if a < j as int {
                        assert(axis_key(points@, axis as int, v@[a] as int) <= axis_key(
                            points@,
                            axis as int,
                            v@[j - 1] as int,
                        ));
                    }
                }
            }
        }
        i = i + 1;
    }
    proof {
        assert(v@.take(n as int) =~= v@);
    }
    v
}

/// Recursively partitions `idxs` around the median along the current
/// axis. Left and right point sets are disjoint, so the two subtrees
/// could even be built in parallel; they share no mutable state.
fn build_tree(points: &Vec<EmbeddedCompany>, idxs: Vec<usize>, axis: usize, dim: usize) -> (t: Tree)
    requires
        1 <= dim as int <= DIM_LIMIT as int,
        (axis as int) < dim as int,
        forall|m: int| 0 <= m < points@.len() ==> (#[trigger] points@[m]).wf(dim as int),
        valid_idxs(idxs@, points@.len() as int),
        idxs@.no_duplicates(),
    ensures
        tree_wf(t, points@, dim as int),
        forall|j: int| tree_contains(t, j) ==> 0 <= j < points@.len(),
        forall|x: usize| tree_contains(t, x as int) <==> idxs@.contains(x),
    decreases idxs@.len(),
{
    if idxs.len() == 0 {
        return Tree::Leaf;
    }
    proof {
        assert(points.len() == points@.len());
    }
    let sorted = sort_by_axis(points, idxs, axis, dim);
    let mid = sorted.len() / 2;
    let pivot = sorted[mid];
    let pk = key_at(points, dim, axis, pivot);
    let mut left_idxs: Vec<usize> = Vec::new();
    let mut right_idxs: Vec<usize> = Vec::new();
    let mut m: usize = 0;
    let len = sorted.len();
    while m < len
        invariant
            0 <= m <= len,
            len == sorted@.len(),
            (mid as int) < len as int,
            pivot == sorted@[mid as int],
            pk as int == axis_key(points@, axis as int, pivot as int),
            (axis as int) < dim as int,
            forall|mm: int| 0 <= mm < points@.len() ==> (#[trigger] points@[mm]).wf(dim as int),
            valid_idxs(sorted@, points@.len() as int),
            sorted@.no_duplicates(),
            forall|x: usize|
                left_idxs@.contains(x) ==> exists|p: int|
                    0 <= p < m && p != mid as int && sorted@[p] == x,
            forall|x: usize|
                right_idxs@.contains(x) ==> exists|p: int|
                    0 <= p < m && p != mid as int && sorted@[p] == x,
            forall|a: int|
                0 <= a < left_idxs@.len() ==> axis_key(
                    points@,
                    axis as int,
                    #[trigger] left_idxs@[a] as int,
                ) < pk as int,
            forall|a: int|
                0 <= a < right_idxs@.len() ==> axis_key(
                    points@,
                    axis as int,
                    #[trigger] right_idxs@[a] as int,
                ) >= pk as int,
            forall|p: int|
                0 <= p < m && p != mid as int ==> left_idxs@.contains(#[trigger] sorted@[p])
                    || right_idxs@.contains(sorted@[p]),
            left_idxs@.no_duplicates(),
            right_idxs@.no_duplicates(),
            valid_idxs(left_idxs@, points@.len() as int),
            valid_idxs(right_idxs@, points@.len() as int),
            left_idxs@.len() + right_idxs@.len() == if m <= mid {
                m as int
            } else {
                m - 1
            },
        decreases len - m,
    {
        if m != mid {
            let x = sorted[m];
            let kx = key_at(points, dim, axis, x);
            proof {
                if left_idxs@.contains(x) {
                    let p = choose|p: int| 0 <= p < m && p != mid as int && sorted@[p] == x;
                    assert(sorted@[p] == sorted@[m as int]);
                    assert(false);
                }
                if right_idxs@.contains(x) {
                    let p = choose|p: int| 0 <= p < m && p != mid as int && sorted@[p] == x;
                    assert(sorted@[p] == sorted@[m as int]);
                    assert(false);
                }
            }
            let ghost lold = left_idxs@;
            let ghost rold = right_idxs@;
            if kx < pk {
                left_idxs.push(x);
                proof {
                    assert forall|y: usize| left_idxs@.contains(y) implies exists|p: int|
                        0 <= p < m + 1 && p != mid as int && sorted@[p] == y by {
                        let q = choose|q: int| 0 <= q < left_idxs@.len() && left_idxs@[q] == y;
                        if q < lold.len() {
                            assert(lold.contains(y));
                        } else {
                            assert(sorted@[m as int] == y);
                        }
                    }
                }
            } else {
                right_idxs.push(x);
                proof {
                    assert forall|y: usize| right_idxs@.contains(y) implies exists|p: int|
                        0 <= p < m + 1 && p != mid as int && sorted@[p] == y by {
                        let q = choose|q: int| 0 <= q < right_idxs@.len() && right_idxs@[q] == y;
                        if q < rold.len() {
                            assert(rold.contains(y));
                        } else {
                            assert(sorted@[m as int] == y);
                        }
                    }
                }
            }
            proof {
                assert forall|p: int| 0 <= p < m + 1 && p != mid as int implies left_idxs@.contains(
                    #[trigger] sorted@[p],
                ) || right_idxs@.contains(sorted@[p]) by {
                    if p < m {
                        if lold.contains(sorted@[p]) {
                            let q = choose|q: int| 0 <= q < lold.len() && lold[q] == sorted@[p];
                            assert(left_idxs@[q] == sorted@[p]);
                        } else {
                            let q = choose|q: int| 0 <= q < rold.len() && rold[q] == sorted@[p];
                            assert(right_idxs@[q] == sorted@[p]);
                        }
                    } else {
                        if kx < pk {
                            assert(left_idxs@[left_idxs@.len() - 1] == sorted@[p]);
                        } else {
                            assert(right_idxs@[right_idxs@.len() - 1] == sorted@[p]);
                        }
                    }
                }
            }
        }
        m = m + 1;
    }
    let next_axis = if axis + 1 == dim {
        0
    } else {
        axis + 1
    };
    let ghost leftv = left_idxs@;
    let ghost rightv = right_idxs@;
    let lt = build_tree(points, left_idxs, next_axis, dim);
    let rt = build_tree(points, right_idxs, next_axis, dim);
    let ghost lts = lt;
    let ghost rts = rt;
    let t = Tree::Node { point: pivot, axis, left: Box::new(lt), right: Box::new(rt) };
    proof {
        assert forall|j: int| tree_contains(lts, j) implies 0 <= j < points@.len() && axis_key(
            points@,
            axis as int,
            j,
        ) < pk as int by {
            assert(0 <= j < points@.len());
            let x = j as usize;
            assert(tree_contains(lts, x as int));
            assert(leftv.contains(x));
            let a = choose|a: int| 0 <= a < leftv.len() && leftv[a] == x;
            assert(axis_key(points@, axis as int, leftv[a] as int) < pk as int);
        }
        assert forall|j: int| tree_contains(rts, j) implies 0 <= j < points@.len() && axis_key(
            points@,
            axis as int,
            j,
        ) >= pk as int by {
            let x = j as usize;
            assert(tree_contains(rts, x as int));
            assert(rightv.contains(x));
            let a = choose|a: int| 0 <= a < rightv.len() && rightv[a] == x;
            assert(axis_key(points@, axis as int, rightv[a] as int) >= pk as int);
        }
        if tree_contains(lts, pivot as int) {
            assert(axis_key(points@, axis as int, pivot as int) < pk as int);
        }
        if tree_contains(rts, pivot as int) {
            let a = choose|a: int| 0 <= a < rightv.len() && rightv[a] == pivot;
            let p = choose|p: int| 0 <= p < len && p != mid as int && sorted@[p] == pivot;
            assert(sorted@[p] == sorted@[mid as int]);
            assert(false);
        }
        assert forall|j: int| !(tree_contains(lts, j) && tree_contains(rts, j)) by {
            if tree_contains(lts, j) && tree_contains(rts, j) {
                assert(axis_key(points@, axis as int, j) < pk as int);
                assert(axis_key(points@, axis as int, j) >= pk as int);
            }
        }
        assert(tree_wf(t, points@, dim as int));
        assert forall|j: int| tree_contains(t, j) implies 0 <= j < points@.len() by {
            if j != pivot as int {
                assert(tree_contains(lts, j) || tree_contains(rts, j));
            }
        }
        assert forall|x: usize| tree_contains(t, x as int) implies idxs@.contains(x) by {
            if x == pivot {
                assert(sorted@.contains(pivot)) by {
                    assert(sorted@[mid as int] == pivot);
                }
            } else if tree_contains(lts, x as int) {
                let p = choose|p: int| 0 <= p < len && p != mid as int && sorted@[p] == x;
                assert(sorted@.contains(x));
            } else {
                assert(tree_contains(rts, x as int));
                let p = choose|p: int| 0 <= p < len && p != mid as int && sorted@[p] == x;
                assert(sorted@.contains(x));
            }
        }
        assert forall|x: usize| idxs@.contains(x) implies tree_contains(t, x as int) by {
            assert(sorted@.contains(x));
            let p = choose|p: int| 0 <= p < sorted@.len() && sorted@[p] == x;
            if p == mid as int {
            } else {
                if leftv.contains(x) {
                    assert(tree_contains(lts, x as int));
                } else {
                    assert(rightv.contains(x));
                    assert(tree_contains(rts, x as int));
                }
            }
        }
    }
    t
}

/// Every component of `v` lies in the representable fixed-point range.
fn embedding_within_limit(v: &Vec<i64>) -> (r: bool)
    ensures
        r == within_limit(v@, EMBED_LIMIT),
{
    let mut i: usize = 0;
    while i < v.len()
        invariant
            0 <= i <= v@.len(),
            forall|m: int| 0 <= m < i ==> -EMBED_LIMIT <= #[trigger] v@[m] <= EMBED_LIMIT,
        decreases v@.len() - i,
    {
        if v[i] < -EMBED_LIMIT || v[i] > EMBED_LIMIT {
            return false;
        }
        i = i + 1;
    }
    true
}

/// The immutable embedding index: the stored points in insertion
/// order together with the partition tree over them. Built once and
/// never mutated; queries are read-only, so concurrent readers need
/// no locking.
#[derive(Debug)]
pub struct EmbeddingIndex {
    dim: usize,
    points: Vec<EmbeddedCompany>,
    root: Tree,
}

impl EmbeddingIndex {
    /// The stored points, in insertion order.
    pub closed spec fn spec_points(self) -> Seq<EmbeddedCompany> {
        self.points@
    }

    /// The configured dimension `D`.
    pub closed spec fn spec_dim(self) -> int {
        self.dim as int
    }

    /// Index invariant: the dimension is in range, every stored point
    /// is well formed for it, and the tree holds exactly the stored
    /// points, none dropped or duplicated.
    pub closed spec fn wf(self) -> bool {
        &&& 1 <= self.dim as int <= DIM_LIMIT as int
        &&& forall|m: int|
            0 <= m < self.points@.len() ==> (#[trigger] self.points@[m]).wf(self.dim as int)
        &&& tree_wf(self.root, self.points@, self.dim as int)
        &&& forall|j: int| tree_contains(self.root, j) ==> 0 <= j < self.points@.len()
        &&& forall|j: int| 0 <= j < self.points@.len() ==> tree_contains(self.root, j)
    }

    /// Everything a well-formed index stores is well formed for its
    /// dimension.
    pub proof fn lemma_points_wf(self)
        requires
            self.wf(),
        ensures
            1 <= self.spec_dim() <= DIM_LIMIT as int,
            forall|m: int|
                0 <= m < self.spec_points().len() ==> (#[trigger] self.spec_points()[m]).wf(
                    self.spec_dim(),
                ),
    {
    }

    /// Number of stored points.
    pub fn len(&self) -> (n: usize)
        ensures
            n == self.spec_points().len(),
    {
        self.points.len()
    }

    /// The configured dimension.
    pub fn dimension(&self) -> (d: usize)
        ensures
            d as int == self.spec_dim(),
    {
        self.dim
    }

    /// Read access to a stored point by insertion index.
    pub fn point(&self, i: usize) -> (p: &EmbeddedCompany)
        requires
            (i as int) < self.spec_points().len(),
        ensures
            *p == self.spec_points()[i as int],
    {
        &self.points[i]
    }

    /// Builds the index over `points` for dimension `dim` (at least 1,
    /// at most `DIM_LIMIT` so squared distances stay exact).
    ///
    /// Fails with `InvalidDimension` exactly when some embedding does
    /// not have length `dim`, and with `MalformedRecord` exactly when
    /// the lengths are right but some record breaks its own invariant.
    /// On success the index holds all points, none dropped or
    /// duplicated, and is immutable from here on.
    pub fn build(points: Vec<EmbeddedCompany>, dim: usize) -> (r: Result<EmbeddingIndex, MatchError>)
        requires
            1 <= dim as int <= DIM_LIMIT as int,
        ensures
            match r {
                Ok(idx) => idx.wf() && idx.spec_dim() == dim as int && idx.spec_points()
                    == points@,
                Err(e) => {
                    ||| (e == MatchError::InvalidDimension && exists|i: int|
                        0 <= i < points@.len() && (#[trigger] points@[i]).embedding@.len()
                            != dim as int)
                    ||| (e == MatchError::MalformedRecord && (forall|i: int|
                        0 <= i < points@.len() ==> (#[trigger] points@[i]).embedding@.len()
                            == dim as int) && exists|i: int|
                        0 <= i < points@.len() && !(#[trigger] points@[i]).wf(dim as int))
                },
            },
            r is Ok <==> forall|i: int|
                0 <= i < points@.len() ==> (#[trigger] points@[i]).wf(dim as int),
    {
        let n = points.len();
        let mut i: usize = 0;
        while i < n
            invariant
                0 <= i <= n,
                n == points@.len(),
                dim >= 1,
                forall|m: int|
                    0 <= m < i ==> (#[trigger] points@[m]).embedding@.len() == dim as int,
            decreases n - i,
        {
            if points[i].embedding.len() != dim {
                return Err(MatchError::InvalidDimension);
            }
            i = i + 1;
        }
        let mut i: usize = 0;
        while i < n
            invariant
                0 <= i <= n,
                n == points@.len(),
                dim >= 1,
                forall|m: int|
                    0 <= m < n ==> (#[trigger] points@[m]).embedding@.len() == dim as int,
                forall|m: int| 0 <= m < i ==> (#[trigger] points@[m]).wf(dim as int),
            decreases n - i,
        {
            let ok = points[i].company.validate();
            if !ok {
                return Err(MatchError::MalformedRecord);
            }
            let in_range = embedding_within_limit(&points[i].embedding);
            if !in_range {
                return Err(MatchError::MalformedRecord);
            }
            i = i + 1;
        }
        let mut idxs: Vec<usize> = Vec::new();
        let mut i: usize = 0;
        while i < n
            invariant
                0 <= i <= n,
                n == points@.len(),
                idxs@.len() == i,
                forall|m: int| 0 <= m < i ==> #[trigger] idxs@[m] as int == m,
            decreases n - i,
        {
            idxs.push(i);
            i = i + 1;
        }
        proof {
            assert(idxs@.no_duplicates());
            assert(valid_idxs(idxs@, points@.len() as int));
        }
        let root = build_tree(&points, idxs, 0, dim);
        let idx = EmbeddingIndex { dim, points, root };
        proof {
            assert forall|j: int| 0 <= j < idx.points@.len() implies tree_contains(
                idx.root,
                j,
            ) by {
                let x = j as usize;
                assert(idxs@[j] == x);
                assert(idxs@.contains(x));
            }
            assert(idx.wf());
        }
        Ok(idx)
    }

    /// The `k` nearest stored points to `q`, nearest first, ties by
    /// insertion order; `min(k, N)` entries in all (an empty index
    /// yields an empty list, not an error). Fails with
    /// `DimensionMismatch` exactly when `q` does not have the index
    /// dimension.
    pub fn query(&self, q: &Vec<i64>, k: usize) -> (r: Result<Vec<Neighbor>, MatchError>)
        requires
            self.wf(),
            within_limit(q@, EMBED_LIMIT),
        ensures
            match r {
                Ok(res) => q@.len() == self.spec_dim() && knn_post(
                    res@,
                    self.spec_points(),
                    q@,
                    k as int,
                ),
                Err(e) => e == MatchError::DimensionMismatch && q@.len() != self.spec_dim(),
            },
    {
        if q.len() != self.dim {
            return Err(MatchError::DimensionMismatch);
        }
        let mut cands: Vec<Neighbor> = Vec::new();
        if k == 0 {
            return Ok(cands);
        }
        proof {
            assert(self.points.len() == self.points@.len());
        }
        knn_search(&self.root, &self.points, q, k, &mut cands, Ghost(Set::empty()));
        let ghost seen = Set::<int>::empty().union(tree_set(self.root));
        let ghost n = self.points@.len() as int;
        proof {
            assert(seen =~= set_int_range(0, n));
            lemma_int_range(0, n);
            let s = cands@.map_values(|nb: Neighbor| nb.index as int);
            assert forall|a: int, b: int|
                0 <= a < b < s.len() implies #[trigger] s[a] != #[trigger] s[b] by {
                if cands@[a].index == cands@[b].index {
                    assert(cands@[a].sq_distance == cands@[b].sq_distance);
                }
            }
            assert(s.no_duplicates());
            assert forall|x: int| s.to_set().contains(x) implies set_int_range(0, n).contains(
                x,
            ) by {
                let m = choose|m: int| 0 <= m < s.len() && s[m] == x;
                assert(seen.contains(cands@[m].index as int));
            }
            s.unique_seq_to_set();
            if cands@.len() < k as int {
                assert forall|x: int| set_int_range(0, n).contains(x) implies s.to_set().contains(
                    x,
                ) by {
                    assert(seen.contains(x));
                    assert(contains_index(cands@, x));
                    let m = choose|m: int| 0 <= m < cands@.len() && cands@[m].index as int == x;
                    assert(s[m] == x);
                }
                assert(s.to_set() =~= set_int_range(0, n));
                assert(cands@.len() == n);
            } else {
                lemma_len_subset(s.to_set(), set_int_range(0, n));
                assert(cands@.len() == min(k as int, n));
            }
            assert forall|j: int|
                0 <= j < n && !contains_index(cands@, j) implies (forall|m: int|
                0 <= m < cands@.len() ==> pair_lt(
                    (#[trigger] cands@[m]).sq_distance as int,
                    cands@[m].index as int,
                    sq_dist(q@, self.points@[j].embedding@),
                    j,
                )) by {
                assert(seen.contains(j));
            }
        }
        Ok(cands)
    }
}

/// A valid result never lists the same stored point twice: the list
/// ascends strictly, and a repeated point would repeat its distance.
pub proof fn lemma_results_distinct(
    res: Seq<Neighbor>,
    points: Seq<EmbeddedCompany>,
    q: Seq<i64>,
    k: int,
)
    requires
        knn_post(res, points, q, k),
    ensures
        forall|a: int, b: int|
            0 <= a < b < res.len() ==> (#[trigger] res[a]).index != (#[trigger] res[b]).index,
{
    assert forall|a: int, b: int| 0 <= a < b < res.len() implies (#[trigger] res[a]).index != (
    #[trigger] res[b]).index by {
        if res[a].index == res[b].index {
            assert(res[a].sq_distance as int == sq_dist(
                q,
                points[res[a].index as int].embedding@,
            ));
            assert(res[b].sq_distance as int == sq_dist(
                q,
                points[res[b].index as int].embedding@,
            ));
        }
    }
}

/// A query vector identical to a stored embedding comes back first:
/// the leading result has squared distance zero, its embedding equals
/// the query, and among all exact matches the earliest stored one
/// wins.
pub proof fn lemma_exact_match_first(
    res: Seq<Neighbor>,
    points: Seq<EmbeddedCompany>,
    q: Seq<i64>,
    k: int,
    j: int,
)
    requires
        knn_post(res, points, q, k),
        forall|m: int| 0 <= m < points.len() ==> (#[trigger] points[m]).embedding@.len() == q.len(),
        k >= 1,
        0 <= j < points.len(),
        points[j].embedding@ == q,
    ensures
        res.len() >= 1,
        res[0].sq_distance == 0,
        points[res[0].index as int].embedding@ == q,
        res[0].index as int <= j,
{
    crate::distance::lemma_sq_dist_zero(q, points[j].embedding@);
    assert(sq_dist(q, points[j].embedding@) == 0);
    crate::distance::lemma_sq_dist_nonneg(q, points[res[0].index as int].embedding@);
    if contains_index(res, j) {
        let m = choose|m: int| 0 <= m < res.len() && (#[trigger] res[m]).index as int == j;
        assert(res[m].sq_distance as int == 0);
        if m > 0 {
            assert(pair_lt(
                res[0].sq_distance as int,
                res[0].index as int,
                res[m].sq_distance as int,
                res[m].index as int,
            ));
        }
    } else {
        assert(pair_lt(
            res[0].sq_distance as int,
            res[0].index as int,
            sq_dist(q, points[j].embedding@),
            j,
        ));
    }
    assert(res[0].sq_distance == 0);
    crate::distance::lemma_sq_dist_zero(q, points[res[0].index as int].embedding@);
}

/// One direction of the uniqueness argument: with equal prefixes, the
/// entry of `r1` at `m` cannot strictly beat the entry of `r2`.
proof fn lemma_knn_pos_le(
    r1: Seq<Neighbor>,
    r2: Seq<Neighbor>,
    points: Seq<EmbeddedCompany>,
    q: Seq<i64>,
    k: int,
    m: int,
)
    requires
        knn_post(r1, points, q, k),
        knn_post(r2, points, q, k),
        0 <= m < r1.len(),
        r1.len() == r2.len(),
        forall|mm: int| 0 <= mm < m ==> r1[mm] == r2[mm],
    ensures
        !pair_lt(
            r1[m].sq_distance as int,
            r1[m].index as int,
            r2[m].sq_distance as int,
            r2[m].index as int,
        ),
{
    if pair_lt(
        r1[m].sq_distance as int,
        r1[m].index as int,
        r2[m].sq_distance as int,
        r2[m].index as int,
    ) {
        let j = r1[m].index as int;
        if contains_index(r2, j) {
            let m2 = choose|m2: int| 0 <= m2 < r2.len() && (#[trigger] r2[m2]).index as int == j;
            if m2 < m {
                assert(r1[m2] == r2[m2]);
                assert(r1[m2].index as int == r1[m].index as int);
                assert(pair_lt(
                    r1[m2].sq_distance as int,
                    r1[m2].index as int,
                    r1[m].sq_distance as int,
                    r1[m].index as int,
                ));
                assert(false);
            } else if m2 == m {
                assert(r2[m].sq_distance as int == sq_dist(q, points[j].embedding@));
                assert(r1[m].sq_distance as int == sq_dist(q, points[j].embedding@));
                assert(false);
            } else {
                assert(pair_lt(
                    r2[m].sq_distance as int,
                    r2[m].index as int,
                    r2[m2].sq_distance as int,
                    r2[m2].index as int,
                ));
                assert(r2[m2].sq_distance as int == sq_dist(q, points[j].embedding@));
                assert(false);
            }
        } else {
            assert(0 <= j < points.len());
            assert(pair_lt(
                r2[m].sq_distance as int,
                r2[m].index as int,
                sq_dist(q, points[j].embedding@),
                j,
            ));
            assert(r1[m].sq_distance as int == sq_dist(q, points[j].embedding@));
            assert(false);
        }
    }
}

/// Equal prefixes extend: the first `m` entries of two valid results
/// agree.
proof fn lemma_knn_unique_rec(
    r1: Seq<Neighbor>,
    r2: Seq<Neighbor>,
    points: Seq<EmbeddedCompany>,
    q: Seq<i64>,
    k: int,
    m: int,
)
    requires
        knn_post(r1, points, q, k),
        knn_post(r2, points, q, k),
        0 <= m <= r1.len(),
        r1.len() == r2.len(),
    ensures
        forall|mm: int| 0 <= mm < m ==> r1[mm] == r2[mm],
    decreases m,
{
    if m > 0 {
        lemma_knn_unique_rec(r1, r2, points, q, k, m - 1);
        lemma_knn_pos_le(r1, r2, points, q, k, m - 1);
        lemma_knn_pos_le(r2, r1, points, q, k, m - 1);
        assert(r1[m - 1].sq_distance as int == r2[m - 1].sq_distance as int && r1[m - 1].index
            as int == r2[m - 1].index as int);
        assert(r1[m - 1] == r2[m - 1]);
    }
}

/// The query contract is categorical: any two result lists meeting
/// `knn_post` for the same index, query and `k` are equal. Together
/// with `knn_post` itself this pins the query result down completely.
pub proof fn lemma_knn_post_unique(
    r1: Seq<Neighbor>,
    r2: Seq<Neighbor>,
    points: Seq<EmbeddedCompany>,
    q: Seq<i64>,
    k: int,
)
    requires
        knn_post(r1, points, q, k),
        knn_post(r2, points, q, k),
    ensures
        r1 == r2,
{
    lemma_knn_unique_rec(r1, r2, points, q, k, r1.len() as int);
    assert(r1 =~= r2);
}

/// The set of insertion indices stored in `t`.
spec fn tree_set(t: Tree) -> Set<int> {
    Set::new(|j: int| tree_contains(t, j))
}

/// Loop/recursion invariant of the search: `cands` is exactly the
/// best `min(k, |seen|)` of the points inspected (or pruned) so far,
/// sorted, and every other inspected point is beaten by all of them.
spec fn cand_inv(
    cands: Seq<Neighbor>,
    seen: Set<int>,
    points: Seq<EmbeddedCompany>,
    q: Seq<i64>,
    k: int,
) -> bool {
    &&& cands.len() <= k
    &&& forall|m: int|
        0 <= m < cands.len() ==> neighbor_ok(#[trigger] cands[m], points, q) && seen.contains(
            cands[m].index as int,
        )
    &&& result_sorted(cands)
    &&& forall|j: int| #[trigger] seen.contains(j) ==> 0 <= j < points.len()
    &&& (cands.len() < k ==> forall|j: int|
        #[trigger] seen.contains(j) ==> contains_index(cands, j))
    &&& forall|j: int|
        #[trigger] seen.contains(j) && !contains_index(cands, j) ==> (forall|m: int|
            0 <= m < cands.len() ==> pair_lt(
                (#[trigger] cands[m]).sq_distance as int,
                cands[m].index as int,
                sq_dist(q, points[j].embedding@),
                j,
            ))
}

/// Strict (distance, index) comparison on candidates.
fn neighbor_lt(a: Neighbor, b: Neighbor) -> (r: bool)
    ensures
        r == pair_lt(a.sq_distance as int, a.index as int, b.sq_distance as int, b.index as int),
{
    a.sq_distance < b.sq_distance || (a.sq_distance == b.sq_distance && a.index < b.index)
}

/// Inserts a fresh candidate into the sorted bounded candidate list,
/// dropping the worst entry if the list would exceed `k`.
fn insert_candidate(
    cands: &mut Vec<Neighbor>,
    k: usize,
    nb: Neighbor,
    points: &Vec<EmbeddedCompany>,
    q: &Vec<i64>,
    seen: Ghost<Set<int>>,
)
    requires
        k >= 1,
        cand_inv(old(cands)@, seen@, points@, q@, k as int),
        neighbor_ok(nb, points@, q@),
        !seen@.contains(nb.index as int),
        0 <= nb.index < points@.len(),
    ensures
        cand_inv(final(cands)@, seen@.insert(nb.index as int), points@, q@, k as int),
{
    let ghost oldc = cands@;
    let mut pos: usize = 0;
    while pos < cands.len() && neighbor_lt(cands[pos], nb)
        invariant
            0 <= pos <= cands@.len(),
            cands@ == oldc,
            forall|m: int|
                0 <= m < pos ==> pair_lt(
                    (#[trigger] cands@[m]).sq_distance as int,
                    cands@[m].index as int,
                    nb.sq_distance as int,
                    nb.index as int,
                ),
        decreases cands@.len() - pos,
    {
        pos = pos + 1;
    }
    proof {
        oldc.insert_ensures(pos as int, nb);
        if (pos as int) < oldc.len() {
            if cands@[pos as int].index == nb.index {
                assert(seen@.contains(nb.index as int));
                assert(false);
            }
        }
    }
    cands.insert(pos, nb);
    let ghost mid = cands@;
    let popped = if cands.len() > k {
        cands.pop();
        true
    } else {
        false
    };
    let ghost newc = cands@;
    let ghost seen2 = seen@.insert(nb.index as int);
    proof {
        // Relate every entry of the final list to the old list or the
        // new candidate.
        assert(mid.len() == oldc.len() + 1);
        assert(popped <==> oldc.len() == k);
        if popped {
            assert(newc =~= mid.drop_last());
        } else {
            assert(newc == mid);
        }
        assert forall|m: int| 0 <= m < newc.len() implies #[trigger] newc[m] == (if m
            < pos as int {
            oldc[m]
        } else if m == pos as int {
            nb
        } else {
            oldc[m - 1]
        }) by {
            assert(newc[m] == mid[m]);
        }
        // Sortedness: everything before `pos` is below `nb`, and `nb`
        // is below everything that was at `pos` or later.
        assert forall|m: int| pos as int <= m < oldc.len() implies pair_lt(
            nb.sq_distance as int,
            nb.index as int,
            (#[trigger] oldc[m]).sq_distance as int,
            oldc[m].index as int,
        ) by {
            if oldc[m].index == nb.index {
                assert(seen@.contains(nb.index as int));
                assert(false);
            }
            if m > pos as int {
                assert(pair_lt(
                    oldc[pos as int].sq_distance as int,
                    oldc[pos as int].index as int,
                    oldc[m].sq_distance as int,
                    oldc[m].index as int,
                ));
            }
        }
        assert(result_sorted(newc));
        // Everything missing from the final list is beaten by all of
        // its entries.
        assert forall|j: int|
            #[trigger] seen2.contains(j) && !contains_index(newc, j) implies (forall|m: int|
            0 <= m < newc.len() ==> pair_lt(
                (#[trigger] newc[m]).sq_distance as int,
                newc[m].index as int,
                sq_dist(q@, points@[j].embedding@),
                j,
            )) by {
            if j == nb.index as int {
                // `nb` itself is missing only when it was inserted at
                // the very end and popped straight off again.
                assert(!contains_index(newc, j));
                if !popped || (pos as int) < oldc.len() {
                    assert((pos as int) < newc.len());
                    assert(newc[pos as int].index as int == j);
                    assert(false);
                }
                assert(popped && pos as int == oldc.len());
                assert forall|m: int| 0 <= m < newc.len() implies pair_lt(
                    (#[trigger] newc[m]).sq_distance as int,
                    newc[m].index as int,
                    sq_dist(q@, points@[j].embedding@),
                    j,
                ) by {
                    assert(newc[m] == oldc[m]);
                }
            } else {
                assert(seen@.contains(j));
                if contains_index(oldc, j) {
                    // `j` sat in the old list, so it can only be the
                    // popped last entry.
                    let mo = choose|mo: int|
                        0 <= mo < oldc.len() && (#[trigger] oldc[mo]).index as int == j;
                    if !popped {
                        assert(newc[if mo < pos as int {
                            mo
                        } else {
                            mo + 1
                        }] == oldc[mo]);
                        assert(contains_index(newc, j));
                        assert(false);
                    } else {
                        if mo < oldc.len() - 1 {
                            assert(newc[if mo < pos as int {
                                mo
                            } else {
                                mo + 1
                            }] == oldc[mo]);
                            assert(contains_index(newc, j));
                            assert(false);
                        }
                        assert(mo == oldc.len() - 1);
                        if pos as int == oldc.len() {
                            assert(newc[mo].index as int == j);
                            assert(false);
                        }
                        assert((pos as int) < oldc.len());
                        assert forall|m: int| 0 <= m < newc.len() implies pair_lt(
                            (#[trigger] newc[m]).sq_distance as int,
                            newc[m].index as int,
                            sq_dist(q@, points@[j].embedding@),
                            j,
                        ) by {
                            if m < pos as int {
                                assert(pair_lt(
                                    oldc[m].sq_distance as int,
                                    oldc[m].index as int,
                                    oldc[mo].sq_distance as int,
                                    oldc[mo].index as int,
                                ));
                            } else if m == pos as int {
                                assert(pair_lt(
                                    nb.sq_distance as int,
                                    nb.index as int,
                                    oldc[mo].sq_distance as int,
                                    oldc[mo].index as int,
                                ));
                            } else {
                                assert(newc[m] == oldc[m - 1]);
                                assert(pair_lt(
                                    oldc[m - 1].sq_distance as int,
                                    oldc[m - 1].index as int,
                                    oldc[mo].sq_distance as int,
                                    oldc[mo].index as int,
                                ));
                            }
                        }
                    }
                } else {
                    // `j` was already missing: the old entries beat it,
                    // and `nb` (if kept) is below some old entry.
                    assert(oldc.len() == k);
                    assert forall|m: int| 0 <= m < newc.len() implies pair_lt(
                        (#[trigger] newc[m]).sq_distance as int,
                        newc[m].index as int,
                        sq_dist(q@, points@[j].embedding@),
                        j,
                    ) by {
                        if m == pos as int && (pos as int) < mid.len() - 1 {
                            assert(pair_lt(
                                nb.sq_distance as int,
                                nb.index as int,
                                oldc[pos as int].sq_distance as int,
                                oldc[pos as int].index as int,
                            ));
                            assert(pair_lt(
                                oldc[pos as int].sq_distance as int,
                                oldc[pos as int].index as int,
                                sq_dist(q@, points@[j].embedding@),
                                j,
                            ));
                        }
                    }
                }
            }
        }
        // Small lists keep everything that was seen.
        if newc.len() < k as int {
            assert(!popped);
            assert forall|j: int| #[trigger] seen2.contains(j) implies contains_index(
                newc,
                j,
            ) by {
                if j == nb.index as int {
                    assert(newc[pos as int] == nb);
                } else {
                    assert(oldc.len() < k as int);
                    let mo = choose|mo: int|
                        0 <= mo < oldc.len() && (#[trigger] oldc[mo]).index as int == j;
                    assert(newc[if mo < pos as int {
                        mo
                    } else {
                        mo + 1
                    }] == oldc[mo]);
                }
            }
        }
        assert forall|m: int| 0 <= m < newc.len() implies neighbor_ok(
            #[trigger] newc[m],
            points@,
            q@,
        ) && seen2.contains(newc[m].index as int) by {}
        assert(cand_inv(newc, seen2, points@, q@, k as int));
    }
}

/// Walks the tree collecting the best candidates. Descends into the
/// child on the query's side of the splitting plane first, then into
/// the far child only if the plane is not already farther away than
/// the worst kept candidate (or the list is not yet full) — the
/// pruning that makes the structure more than a linear scan.
fn knn_search(
    t: &Tree,
    points: &Vec<EmbeddedCompany>,
    q: &Vec<i64>,
    k: usize,
    cands: &mut Vec<Neighbor>,
    seen: Ghost<Set<int>>,
)
    requires
        k >= 1,
        q@.len() <= DIM_LIMIT,
        within_limit(q@, EMBED_LIMIT),
        forall|m: int| 0 <= m < points@.len() ==> (#[trigger] points@[m]).wf(q@.len() as int),
        tree_wf(*t, points@, q@.len() as int),
        forall|j: int| tree_contains(*t, j) ==> 0 <= j < points@.len(),
        cand_inv(old(cands)@, seen@, points@, q@, k as int),
        forall|j: int| tree_contains(*t, j) ==> !seen@.contains(j),
    ensures
        cand_inv(final(cands)@, seen@.union(tree_set(*t)), points@, q@, k as int),
    decreases *t,
{
    match t {
        Tree::Leaf => {
            proof {
                assert(seen@.union(tree_set(*t)) =~= seen@);
            }
        },
        Tree::Node { point, axis, left, right } => {
            let pi = *point;
            let ax = *axis;
            proof {
                assert(points.len() == points@.len());
                assert(tree_contains(*t, pi as int));
            }
            let d = crate::distance::sq_distance(q, &points[pi].embedding);
            let nb = Neighbor { index: pi, sq_distance: d };
            insert_candidate(cands, k, nb, points, q, seen);
            let ghost seen1 = seen@.insert(pi as int);
            let qa = q[ax];
            let sp = points[pi].embedding[ax];
            let ghost near_first = qa < sp;
            let (near, far): (&Tree, &Tree) = if qa < sp {
                (&**left, &**right)
            } else {
                (&**right, &**left)
            };
            proof {
                assert(tree_wf(*near, points@, q@.len() as int));
                assert(tree_wf(*far, points@, q@.len() as int));
                assert forall|j: int| tree_contains(*near, j) implies !seen1.contains(j) by {
                    assert(tree_contains(*t, j));
                }
            }
            knn_search(near, points, q, k, cands, Ghost(seen1));
            let ghost seen2 = seen1.union(tree_set(*near));
            proof {
                assert forall|j: int| tree_contains(*far, j) implies !seen2.contains(j) by {
                    assert(tree_contains(*t, j));
                    if tree_set(*near).contains(j) {
                        assert(tree_contains(*near, j));
                    }
                }
            }
            let explore_far = if cands.len() < k {
                true
            } else {
                let plane = qa - sp;
                proof {
                    assert(0 <= plane * plane <= 4 * EMBED_LIMIT * EMBED_LIMIT)
                        by (nonlinear_arith)
                        requires
                            -2 * EMBED_LIMIT <= plane <= 2 * EMBED_LIMIT,
                    ;
                }
                let pd = plane * plane;
                proof {
                    assert(cands@.len() == k as int);
                }
                pd <= cands[cands.len() - 1].sq_distance
            };
            if explore_far {
                knn_search(far, points, q, k, cands, Ghost(seen2));
                proof {
                    assert(seen2.union(tree_set(*far)) =~= seen@.union(tree_set(*t)));
                }
            } else {
                proof {
                    let ghost worst = cands@[cands@.len() - 1];
                    let ghost pd = (qa - sp) * (qa - sp);
                    let ghost seen3 = seen2.union(tree_set(*far));
                    assert(cands@.len() == k as int);
                    assert forall|j: int| tree_contains(*far, j) implies (forall|m: int|
                        0 <= m < cands@.len() ==> pair_lt(
                            (#[trigger] cands@[m]).sq_distance as int,
                            cands@[m].index as int,
                            sq_dist(q@, points@[j].embedding@),
                            j,
                        )) by {
                        let ej = points@[j].embedding@;
                        crate::distance::lemma_sq_dist_term_bound(q@, ej, ax as int);
                        let qv = q@[ax as int] as int;
                        let ev = ej[ax as int] as int;
                        let sv = points@[pi as int].embedding@[ax as int] as int;
                        if near_first {
                            assert(ev >= sv);
                            assert((qv - ev) * (qv - ev) >= (qv - sv) * (qv - sv))
                                by (nonlinear_arith)
                                requires
                                    qv < sv,
                                    ev >= sv,
                            ;
                        } else {
                            assert(ev < sv);
                            assert((qv - ev) * (qv - ev) >= (qv - sv) * (qv - sv))
                                by (nonlinear_arith)
                                requires
                                    qv >= sv,
                                    ev < sv,
                            ;
                        }
                        assert(sq_dist(q@, ej) >= pd);
                        assert forall|m: int| 0 <= m < cands@.len() implies pair_lt(
                            (#[trigger] cands@[m]).sq_distance as int,
                            cands@[m].index as int,
                            sq_dist(q@, ej),
                            j,
                        ) by {
                            if m < cands@.len() - 1 {
                                assert(pair_lt(
                                    cands@[m].sq_distance as int,
                                    cands@[m].index as int,
                                    worst.sq_distance as int,
                                    worst.index as int,
                                ));
                            }
                            assert(cands@[m].sq_distance as int <= worst.sq_distance as int);
                            assert((worst.sq_distance as int) < pd);
                        }
                    }
                    assert forall|j: int|
                        #[trigger] seen3.contains(j) && !contains_index(cands@, j) implies (
                    forall|m: int|
                        0 <= m < cands@.len() ==> pair_lt(
                            (#[trigger] cands@[m]).sq_distance as int,
                            cands@[m].index as int,
                            sq_dist(q@, points@[j].embedding@),
                            j,
                        )) by {
                        if seen2.contains(j) {
                        } else {
                            assert(tree_set(*far).contains(j));
                            assert(tree_contains(*far, j));
                        }
                    }
                    assert forall|j: int| #[trigger] seen3.contains(j) implies 0 <= j
                        < points@.len() by {
                        if !seen2.contains(j) {
                            assert(tree_contains(*far, j));
                            assert(tree_contains(*t, j));
                        }
                    }
                    assert(cand_inv(cands@, seen3, points@, q@, k as int));
                    assert(seen3 =~= seen@.union(tree_set(*t)));
                }
            }
        },
    }
}

} // verus!
