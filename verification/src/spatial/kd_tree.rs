//! An immutable K-d tree over points with integer coordinates, for finding
//! all points within a distance of a query.
use crate::statistics::inversion::pairs;
use crate::statistics::sort::{weight_sum, weighted_merge_sort_mut};
use crate::statistics::stable::is_stable_rearrangement;
use vstd::prelude::*;
use vstd::seq_lib::*;

verus! {

/// A node of a K-d tree that is kept in a vector: `left` and `right` are
/// positions in that vector, `split_axis` is the axis at which the node
/// splits, and `point_index` is the row of the node's point in the point
/// cloud.
#[derive(Debug, Clone, Copy, PartialEq, Eq, Structural)]
pub struct Node {
    pub split_axis: usize,
    pub point_index: usize,
    pub left: Option<usize>,
    pub right: Option<usize>,
}

impl Node {
    /// Creates a node from its four parts.
    pub fn new(
        split_axis: usize,
        point_index: usize,
        left: Option<usize>,
        right: Option<usize>,
    ) -> (node: Self)
        ensures
            node == (Node { split_axis, point_index, left, right }),
    {
        Self { split_axis, point_index, left, right }
    }
}

/// The greatest number of axes of a point cloud.
pub const MAX_DIMS: usize = 65536;

/// The cloud holds at most `u32::MAX` points, each with `n_dims`
/// coordinates, and there are between one and `MAX_DIMS` axes.
pub open spec fn cloud_ok(cloud: Seq<Vec<i32>>, n_dims: int) -> bool {
    &&& 0 < n_dims <= MAX_DIMS
    &&& cloud.len() <= u32::MAX
    &&& forall|p: int| 0 <= p < cloud.len() ==> (#[trigger] cloud[p])@.len() == n_dims
}

/// The square of the distance of two points over their first `k` axes.
pub open spec fn dist_sq_upto(a: Seq<i32>, b: Seq<i32>, k: int) -> int
    decreases k,
{
    if k <= 0 {
        0
    } else {
        dist_sq_upto(a, b, k - 1) + (a[k - 1] - b[k - 1]) * (a[k - 1] - b[k - 1])
    }
}

/// The square of the distance of two points.
pub open spec fn dist_sq(a: Seq<i32>, b: Seq<i32>) -> int {
    dist_sq_upto(a, b, a.len() as int)
}

/// The rows of the points of the subtree at `idx`, where only nodes before
/// `bound` count.
pub open spec fn subtree(nodes: Seq<Node>, idx: Option<usize>, bound: int) -> Set<usize>
    decreases bound,
{
    match idx {
        None => Set::empty(),
        Some(i) => if i >= bound || i >= nodes.len() {
            Set::empty()
        } else {
            subtree(nodes, nodes[i as int].left, i as int).union(
                subtree(nodes, nodes[i as int].right, i as int),
            ).insert(nodes[i as int].point_index)
        },
    }
}

/// Node `i` is in order: its children stand before it; the points of its
/// left subtree are not above its own point along its axis, and those of its
/// right subtree not below; and no point occurs twice under it.
pub open spec fn node_ok(nodes: Seq<Node>, cloud: Seq<Vec<i32>>, n_dims: int, i: int) -> bool {
    let nd = nodes[i];
    let lefts = subtree(nodes, nd.left, i);
    let rights = subtree(nodes, nd.right, i);
    &&& nd.split_axis < n_dims
    &&& nd.point_index < cloud.len()
    &&& nd.left matches Some(l) ==> l < i
    &&& nd.right matches Some(r) ==> r < i
    &&& forall|p: usize|
        lefts.contains(p) ==> p < cloud.len() && cloud[p as int]@[nd.split_axis as int]
            <= cloud[nd.point_index as int]@[nd.split_axis as int]
    &&& forall|p: usize|
        rights.contains(p) ==> p < cloud.len() && cloud[p as int]@[nd.split_axis as int]
            >= cloud[nd.point_index as int]@[nd.split_axis as int]
    &&& !lefts.contains(nd.point_index)
    &&& !rights.contains(nd.point_index)
    &&& lefts.disjoint(rights)
}

/// Every node is in order.
pub open spec fn nodes_ok(nodes: Seq<Node>, cloud: Seq<Vec<i32>>, n_dims: int) -> bool {
    forall|i: int| 0 <= i < nodes.len() ==> node_ok(nodes, cloud, n_dims, i)
}

/// The subtree at a node does not depend on the bound, once the node counts.
pub proof fn lemma_subtree_bound(nodes: Seq<Node>, idx: Option<usize>, b1: int, b2: int)
    requires
        idx matches Some(i) ==> i < b1 && i < b2,
    ensures
        subtree(nodes, idx, b1) == subtree(nodes, idx, b2),
{
}

/// Nodes added behind the others leave the subtrees of the others as they
/// are.
pub proof fn lemma_subtree_frame(
    before: Seq<Node>,
    after: Seq<Node>,
    idx: Option<usize>,
    bound: int,
)
    requires
        before.len() <= after.len(),
        after.subrange(0, before.len() as int) == before,
        bound <= before.len(),
    ensures
        subtree(before, idx, bound) == subtree(after, idx, bound),
    decreases bound,
{
    match idx {
        None => {},
        Some(i) => {
            if i < bound {
                assert(after[i as int] == after.subrange(0, before.len() as int)[i as int]);
                lemma_subtree_frame(before, after, before[i as int].left, i as int);
                lemma_subtree_frame(before, after, before[i as int].right, i as int);
            }
        },
    }
}

/// Nodes added behind the others leave the others in order.
pub proof fn lemma_nodes_ok_frame(
    before: Seq<Node>,
    after: Seq<Node>,
    cloud: Seq<Vec<i32>>,
    n_dims: int,
    i: int,
)
    requires
        before.len() <= after.len(),
        after.subrange(0, before.len() as int) == before,
        0 <= i < before.len(),
        node_ok(before, cloud, n_dims, i),
    ensures
        node_ok(after, cloud, n_dims, i),
{
    assert(after[i] == after.subrange(0, before.len() as int)[i]);
    lemma_subtree_frame(before, after, before[i].left, i);
    lemma_subtree_frame(before, after, before[i].right, i);
}

/// The distance over some axes is not negative and grows with the axes.
pub proof fn lemma_dist_grows(a: Seq<i32>, b: Seq<i32>, j: int, k: int)
    requires
        0 <= j <= k,
    ensures
        0 <= dist_sq_upto(a, b, j) <= dist_sq_upto(a, b, k),
    decreases k,
{
    if j < k {
        lemma_dist_grows(a, b, j, k - 1);
        let d = a[k - 1] - b[k - 1];
        assert(0 <= d * d) by (nonlinear_arith);
    } else if k > 0 {
        lemma_dist_grows(a, b, j - 1, k - 1);
        let d = a[k - 1] - b[k - 1];
        assert(0 <= d * d) by (nonlinear_arith);
    }
}

/// Two points are at least as far apart as they are along one axis.
pub proof fn lemma_dist_covers_axis(a: Seq<i32>, b: Seq<i32>, ax: int)
    requires
        0 <= ax < a.len(),
    ensures
        (a[ax] - b[ax]) * (a[ax] - b[ax]) <= dist_sq(a, b),
{
    lemma_dist_grows(a, b, ax, ax);
    lemma_dist_grows(a, b, ax + 1, a.len() as int);
}

/// The square of the distance of two points.
pub fn distance_squared(a: &Vec<i32>, b: &Vec<i32>) -> (d: u128)
    requires
        a.len() == b.len(),
        a.len() <= MAX_DIMS,
    ensures
        d == dist_sq(a@, b@),
{
    let mut d: u128 = 0;
    let mut k: usize = 0;
    while k < a.len()
        invariant
            a.len() == b.len(),
            a.len() <= MAX_DIMS,
            k <= a.len(),
            d == dist_sq_upto(a@, b@, k as int),
            d <= k * 0x1_0000_0000_0000_0000,
        decreases a.len() - k,
    {
        let gap: i64 = a[k] as i64 - b[k] as i64;
        proof {
            assert(0 <= gap * gap <= 0x1_0000_0000_0000_0000) by (nonlinear_arith)
                requires
                    -0x1_0000_0000 <= gap <= 0x1_0000_0000,
            ;
        }
        let square: u128 = (gap as i128 * gap as i128) as u128;
        d = d + square;
        k += 1;
    }
    d
}

/// An immutable K-d tree over a cloud of points with integer coordinates.
/// The nodes are kept in a vector, children before their parents, and name
/// their points by their rows in the cloud.
#[derive(Debug, Clone)]
pub struct KDTree {
    pub cloud: Vec<Vec<i32>>,
    pub n_dims: usize,
    pub nodes: Vec<Node>,
    pub root: Option<usize>,
}

/// One more item at the end of a sequence without repetitions, which does
/// not hold it.
pub proof fn lemma_push_new(s: Seq<usize>, x: usize)
    requires
        s.no_duplicates(),
        !s.contains(x),
    ensures
        s.push(x).no_duplicates(),
        forall|p: usize| s.push(x).contains(p) <==> (s.contains(p) || p == x),
{
    let t = s.push(x);
    assert forall|i: int, j: int| 0 <= i < t.len() && 0 <= j < t.len() && i != j implies t[i]
        != t[j] by {
        if i < s.len() && j < s.len() {
        } else if i < s.len() {
            assert(s.contains(s[i]));
        } else {
            assert(s.contains(s[j]));
        }
    }
    assert forall|p: usize| t.contains(p) <==> (s.contains(p) || p == x) by {
        if s.contains(p) {
            let i = choose|i: int| 0 <= i < s.len() && s[i] == p;
            assert(t[i] == p);
        }
        if p == x {
            assert(t[s.len() as int] == x);
        }
        if t.contains(p) {
            let i = choose|i: int| 0 <= i < t.len() && t[i] == p;
            if i < s.len() {
                assert(s[i] == p);
            }
        }
    }
}

impl KDTree {
    /// The tree is in order, and its points are those of the cloud.
    pub open spec fn wf(&self) -> bool {
        &&& cloud_ok(self.cloud@, self.n_dims as int)
        &&& nodes_ok(self.nodes@, self.cloud@, self.n_dims as int)
        &&& self.root matches Some(r) ==> r < self.nodes@.len()
        &&& forall|p: usize|
            subtree(self.nodes@, self.root, self.nodes@.len() as int).contains(p) <==> p
                < self.cloud@.len()
    }

    /// The point at row `p` lies within `radius_sq` of the query, as squares
    /// of distances go.
    pub open spec fn within(&self, p: usize, query: Seq<i32>, radius_sq: int) -> bool {
        p < self.cloud@.len() && dist_sq(self.cloud@[p as int]@, query) <= radius_sq
    }

    /// The rows of all points within `radius` of the query, each once.
    pub fn search(&self, query: &Vec<i32>, radius: u64) -> (results: Vec<usize>)
        requires
            self.wf(),
            query.len() == self.n_dims,
        ensures
            results@.no_duplicates(),
            forall|p: usize| results@.contains(p) <==> self.within(p, query@, radius * radius),
    {
        proof {
            assert(radius * radius <= 0xFFFF_FFFF_FFFF_FFFF * 0xFFFF_FFFF_FFFF_FFFF)
                by (nonlinear_arith)
                requires
                    0 <= radius <= 0xFFFF_FFFF_FFFF_FFFF,
            ;
        }
        let radius_sq: u128 = radius as u128 * radius as u128;
        let mut results: Vec<usize> = Vec::new();
        // begin recursive searching only if the tree is not empty
        match self.root {
            Some(root) => {
                proof {
                    lemma_subtree_bound(
                        self.nodes@,
                        self.root,
                        root + 1,
                        self.nodes@.len() as int,
                    );
                }
                self.recursive_search(root, query, radius_sq, &mut results);
            },
            None => {},
        }
        proof {
            let all = subtree(self.nodes@, self.root, self.nodes@.len() as int);
            assert forall|p: usize| results@.contains(p) <==> self.within(
                p,
                query@,
                radius * radius,
            ) by {
                assert(all.contains(p) <==> p < self.cloud@.len());
            }
        }
        results
    }

    /// Adds to `results` the rows of the points of the subtree at
    /// `node_index` that lie within the radius of the query.
    fn recursive_search(
        &self,
        node_index: usize,
        query: &Vec<i32>,
        radius_sq: u128,
        results: &mut Vec<usize>,
    )
        requires
            self.wf(),
            query.len() == self.n_dims,
            node_index < self.nodes@.len(),
            old(results)@.no_duplicates(),
            forall|p: usize|
                old(results)@.contains(p) ==> !subtree(
                    self.nodes@,
                    Some(node_index),
                    node_index + 1,
                ).contains(p),
        ensures
            final(results)@.no_duplicates(),
            forall|p: usize|
                final(results)@.contains(p) <==> (old(results)@.contains(p) || (subtree(
                    self.nodes@,
                    Some(node_index),
                    node_index + 1,
                ).contains(p) && self.within(p, query@, radius_sq as int))),
        decreases node_index,
    {
        let ghost nodes = self.nodes@;
        let ghost cloud = self.cloud@;
        let ghost before = results@;
        // get the current node's coordinates
        let node: Node = self.nodes[node_index];
        proof {
            assert(node_ok(nodes, cloud, self.n_dims as int, node_index as int));
        }
        let ghost lefts = subtree(nodes, node.left, node_index as int);
        let ghost rights = subtree(nodes, node.right, node_index as int);
        let ghost all = subtree(nodes, Some(node_index), node_index + 1);
        proof {
            assert(all == lefts.union(rights).insert(node.point_index));
        }
        let node_point: &Vec<i32> = &self.cloud[node.point_index];

        // compute the current node's distance from the query
        let node_dist_sq: u128 = distance_squared(node_point, query);

        // add this node to results if it's within the specified radius
        if node_dist_sq <= radius_sq {
            proof {
                assert(all.contains(node.point_index));
                lemma_push_new(results@, node.point_index);
            }
            results.push(node.point_index);
            proof {
                assert(results@ == before.push(node.point_index));
            }
        }
        let ghost with_own = results@;
        proof {
            assert(self.within(node.point_index, query@, radius_sq as int) <==> node_dist_sq
                <= radius_sq) by {
                assert(node_point@ == cloud[node.point_index as int]@);
            }
            assert forall|p: usize|
                with_own.contains(p) <==> (before.contains(p) || (p == node.point_index
                    && self.within(p, query@, radius_sq as int))) by {
                if node_dist_sq <= radius_sq {
                    assert(with_own.contains(p) <==> (before.contains(p) || p
                        == node.point_index));
                } else {
                    assert(with_own == before);
                }
            }
        }

        // decide the traversal order and recurse into the near side and the
        // far side (only if needed)
        let ax: usize = node.split_axis;
        let diff: i64 = query[ax] as i64 - node_point[ax] as i64;
        let near: Option<usize> = if diff <= 0 {
            node.left
        } else {
            node.right
        };
        let far: Option<usize> = if diff <= 0 {
            node.right
        } else {
            node.left
        };
        let ghost nears = if diff <= 0 {
            lefts
        } else {
            rights
        };
        let ghost fars = if diff <= 0 {
            rights
        } else {
            lefts
        };
        match near {
            Some(child) => {
                proof {
                    lemma_subtree_bound(nodes, near, child + 1, node_index as int);
                    assert forall|p: usize| with_own.contains(p) implies !nears.contains(p) by {
                        if nears.contains(p) {
                            assert(all.contains(p));
                        }
                    }
                }
                self.recursive_search(child, query, radius_sq, results);
            },
            None => {},
        }
        let ghost with_near = results@;
        proof {
            assert forall|p: usize|
                with_near.contains(p) <==> (with_own.contains(p) || (nears.contains(p)
                    && self.within(p, query@, radius_sq as int))) by {}
        }
        proof {
            assert(diff * diff <= 0x1_0000_0000 * 0x1_0000_0000) by (nonlinear_arith)
                requires
                    -0x1_0000_0000 <= diff <= 0x1_0000_0000,
            ;
            assert(0 <= diff * diff) by (nonlinear_arith);
        }
        let gap_sq: u128 = (diff as i128 * diff as i128) as u128;
        if gap_sq <= radius_sq {
            match far {
                Some(child) => {
                    proof {
                        lemma_subtree_bound(nodes, far, child + 1, node_index as int);
                        assert forall|p: usize| with_near.contains(p) implies !fars.contains(
                            p,
                        ) by {
                            if fars.contains(p) {
                                assert(all.contains(p));
                                assert(!before.contains(p));
                                assert(!nears.contains(p));
                            }
                        }
                    }
                    self.recursive_search(child, query, radius_sq, results);
                },
                None => {},
            }
        } else {
            proof {
                // nothing on the far side is within the radius
                assert forall|p: usize| fars.contains(p) implies !self.within(
                    p,
                    query@,
                    radius_sq as int,
                ) by {
                    let c = cloud[p as int]@;
                    lemma_dist_covers_axis(c, query@, ax as int);
                    let own = node_point@[ax as int] as int;
                    let q = query@[ax as int] as int;
                    let x = c[ax as int] as int;
                    assert((x - q) * (x - q) >= (q - own) * (q - own)) by (nonlinear_arith)
                        requires
                            (q <= own && own <= x) || (x <= own && own < q),
                    ;
                }
            }
        }
        proof {
            assert forall|p: usize|
                results@.contains(p) <==> (with_near.contains(p) || (fars.contains(p)
                    && self.within(p, query@, radius_sq as int))) by {}
            assert forall|p: usize|
                results@.contains(p) <==> (before.contains(p) || (all.contains(p) && self.within(
                    p,
                    query@,
                    radius_sq as int,
                ))) by {
                assert(all.contains(p) <==> (lefts.contains(p) || rights.contains(p) || p
                    == node.point_index));
                assert((nears.contains(p) || fars.contains(p)) <==> (lefts.contains(p)
                    || rights.contains(p)));
            }
        }
    }
}

/// Weights that are all at most `bound` sum to at most their number times
/// `bound`.
proof fn lemma_weight_sum_bound(w: Seq<u64>, bound: int)
    requires
        forall|k: int| 0 <= k < w.len() ==> #[trigger] w[k] <= bound,
    ensures
        weight_sum(w) <= w.len() * bound,
    decreases w.len(),
{
    if w.len() > 0 {
        lemma_weight_sum_bound(w.drop_last(), bound);
        assert((w.len() - 1) * bound + bound == w.len() * bound) by (nonlinear_arith);
    } else {
        assert(0 * bound == 0) by (nonlinear_arith);
    }
}

/// The rows `indices` were sorted by their coordinates along `axis`, as
/// `keys0` and `places0` to `keys1` and `places1`.
pub open spec fn sorted_rows(
    cloud: Seq<Vec<i32>>,
    axis: int,
    indices: Seq<usize>,
    keys0: Seq<i64>,
    places0: Seq<u64>,
    keys1: Seq<i64>,
    places1: Seq<u64>,
) -> bool {
    &&& keys0.len() == indices.len()
    &&& places0.len() == indices.len()
    &&& keys1.len() == indices.len()
    &&& places1.len() == indices.len()
    &&& indices.no_duplicates()
    &&& forall|k: int|
        0 <= k < indices.len() ==> (#[trigger] indices[k]) < cloud.len() && places0[k]
            == indices[k] && keys0[k] == cloud[indices[k] as int]@[axis]
    &&& pairs(keys1, places1).to_multiset() == pairs(keys0, places0).to_multiset()
    &&& exists|perm: Seq<int>|
        is_stable_rearrangement(pairs(keys0, places0), pairs(keys1, places1), perm)
}

/// After the sort every place is a row of the cloud with its coordinate as
/// its key, no row occurs twice, and the rows are those that were given.
proof fn lemma_sorted_rows(
    cloud: Seq<Vec<i32>>,
    axis: int,
    indices: Seq<usize>,
    keys0: Seq<i64>,
    places0: Seq<u64>,
    keys1: Seq<i64>,
    places1: Seq<u64>,
)
    requires
        sorted_rows(cloud, axis, indices, keys0, places0, keys1, places1),
    ensures
        forall|k: int|
            0 <= k < places1.len() ==> (#[trigger] places1[k]) < cloud.len() && keys1[k]
                == cloud[places1[k] as int]@[axis] && indices.contains(places1[k] as usize),
        forall|k: int, l: int|
            0 <= k < l < places1.len() ==> #[trigger] places1[k] != #[trigger] places1[l],
        forall|j: int| 0 <= j < indices.len() ==> places1.contains(#[trigger] indices[j] as u64),
{
    let given = pairs(keys0, places0);
    let arranged = pairs(keys1, places1);
    let perm = choose|perm: Seq<int>| is_stable_rearrangement(given, arranged, perm);
    assert forall|k: int| 0 <= k < places1.len() implies (#[trigger] places1[k]) < cloud.len()
        && keys1[k] == cloud[places1[k] as int]@[axis] && indices.contains(
        places1[k] as usize,
    ) by {
        let j = perm[k];
        assert(arranged[k] == given[j]);
        assert(given[j] == (keys0[j], places0[j]));
        assert(arranged[k] == (keys1[k], places1[k]));
        assert(indices[j] == places1[k] as usize);
    }
    assert forall|k: int, l: int| 0 <= k < l < places1.len() implies #[trigger] places1[k]
        != #[trigger] places1[l] by {
        assert(arranged[k] == given[perm[k]]);
        assert(arranged[l] == given[perm[l]]);
        assert(arranged[k] == (keys1[k], places1[k]));
        assert(arranged[l] == (keys1[l], places1[l]));
        assert(perm[k] != perm[l]);
        assert(indices[perm[k]] != indices[perm[l]]);
    }
    assert forall|j: int| 0 <= j < indices.len() implies places1.contains(
        #[trigger] indices[j] as u64,
    ) by {
        to_multiset_contains(given, given[j]);
        to_multiset_contains(arranged, given[j]);
        assert(given.contains(given[j]));
        let k = choose|k: int| 0 <= k < arranged.len() && arranged[k] == given[j];
        assert(arranged[k] == (keys1[k], places1[k]));
        assert(given[j] == (keys0[j], places0[j]));
        assert(places1[k] == indices[j] as u64);
    }
}

/// A copy of the rows from `lo` to `hi`.
fn copy_rows(rows: &Vec<usize>, lo: usize, hi: usize) -> (part: Vec<usize>)
    requires
        lo <= hi <= rows.len(),
    ensures
        part@ == rows@.subrange(lo as int, hi as int),
{
    let mut part: Vec<usize> = Vec::with_capacity(hi - lo);
    let mut k: usize = lo;
    while k < hi
        invariant
            lo <= k <= hi,
            hi <= rows.len(),
            part@ == rows@.subrange(lo as int, k as int),
        decreases hi - k,
    {
        part.push(rows[k]);
        proof {
            assert(part@ =~= rows@.subrange(lo as int, k + 1));
        }
        k += 1;
    }
    part
}

/// The rows `indices` in the order of their coordinates along `axis`.
fn sort_rows(cloud: &Vec<Vec<i32>>, n_dims: usize, indices: &Vec<usize>, axis: usize) -> (sorted:
    Vec<usize>)
    requires
        cloud_ok(cloud@, n_dims as int),
        axis < n_dims,
        indices@.no_duplicates(),
        indices@.len() <= cloud@.len(),
        forall|k: int| 0 <= k < indices@.len() ==> (#[trigger] indices@[k]) < cloud@.len(),
    ensures
        rows_sorted(cloud@, axis as int, indices@, sorted@),
{
    let n: usize = indices.len();
    let mut keys: Vec<i64> = Vec::with_capacity(n);
    let mut places: Vec<u64> = Vec::with_capacity(n);
    let mut k: usize = 0;
    while k < n
        invariant
            cloud_ok(cloud@, n_dims as int),
            axis < n_dims,
            n == indices@.len(),
            forall|j: int| 0 <= j < indices@.len() ==> (#[trigger] indices@[j]) < cloud@.len(),
            k <= n,
            keys@.len() == k,
            places@.len() == k,
            forall|j: int|
                0 <= j < k ==> #[trigger] places@[j] == indices@[j] && keys@[j]
                    == cloud@[indices@[j] as int]@[axis as int] && places@[j] <= u32::MAX,
        decreases n - k,
    {
        let row: usize = indices[k];
        keys.push(cloud[row][axis] as i64);
        places.push(row as u64);
        k += 1;
    }
    let ghost keys0 = keys@;
    let ghost places0 = places@;
    proof {
        lemma_weight_sum_bound(places0, u32::MAX as int);
        assert(places0.len() * u32::MAX <= 0xFFFF_FFFF * 0xFFFF_FFFF) by (nonlinear_arith)
            requires
                places0.len() <= 0xFFFF_FFFF,
        ;
    }
    // the lengths agree and the rows sum to less than their number squared:
    // the sort does not fail; its count is of no use here
    let _count: u128 = weighted_merge_sort_mut(&mut keys, &mut places).unwrap();
    proof {
        assert(sorted_rows(cloud@, axis as int, indices@, keys0, places0, keys@, places@));
        lemma_sorted_rows(cloud@, axis as int, indices@, keys0, places0, keys@, places@);
    }
    let mut sorted: Vec<usize> = Vec::with_capacity(n);
    let mut k: usize = 0;
    while k < n
        invariant
            n == places@.len(),
            k <= n,
            sorted@.len() == k,
            forall|j: int| 0 <= j < places@.len() ==> (#[trigger] places@[j]) <= u32::MAX,
            forall|j: int| 0 <= j < k ==> #[trigger] sorted@[j] == places@[j],
        decreases n - k,
    {
        sorted.push(places[k] as usize);
        k += 1;
    }
    proof {
        assert forall|p: usize| sorted@.contains(p) <==> indices@.contains(p) by {
            if sorted@.contains(p) {
                let j = choose|j: int| 0 <= j < sorted@.len() && sorted@[j] == p;
                assert(indices@.contains(places@[j] as usize));
            }
            if indices@.contains(p) {
                let j = choose|j: int| 0 <= j < indices@.len() && indices@[j] == p;
                assert(places@.contains(indices@[j] as u64));
                let m = choose|m: int| 0 <= m < places@.len() && places@[m] == indices@[j] as u64;
                assert(sorted@[m] == p);
            }
        }
        assert forall|a: int, b: int|
            0 <= a < sorted@.len() && 0 <= b < sorted@.len() && a != b implies sorted@[a]
            != sorted@[b] by {
            if a < b {
                assert(places@[a] != places@[b]);
            } else {
                assert(places@[b] != places@[a]);
            }
        }
        assert forall|a: int, b: int| 0 <= a <= b < sorted@.len() implies cloud@[(
        #[trigger] sorted@[a]) as int]@[axis as int] <= cloud@[(#[trigger] sorted@[b]) as int]@[axis as int] by {
            assert(keys@[a] <= keys@[b]);
            assert(keys@[a] == cloud@[places@[a] as int]@[axis as int]);
            assert(keys@[b] == cloud@[places@[b] as int]@[axis as int]);
        }
        assert forall|k: int| 0 <= k < sorted@.len() implies (#[trigger] sorted@[k])
            < cloud@.len() by {
            assert(places@[k] < cloud@.len());
        }
    }
    sorted
}

/// The nodes of the subtree at `idx` split at the axes in turn: the node at
/// depth `depth` at the axis `depth % n_dims`, its children at the next one,
/// and so on down. Only nodes before `bound` count.
pub open spec fn axes_in_turn(
    nodes: Seq<Node>,
    idx: Option<usize>,
    depth: int,
    n_dims: int,
    bound: int,
) -> bool
    decreases bound,
{
    match idx {
        None => true,
        Some(i) => if i >= bound || i >= nodes.len() {
            false
        } else {
            &&& nodes[i as int].split_axis == depth % n_dims
            &&& axes_in_turn(nodes, nodes[i as int].left, depth + 1, n_dims, i as int)
            &&& axes_in_turn(nodes, nodes[i as int].right, depth + 1, n_dims, i as int)
        },
    }
}

/// Whether a subtree takes the axes in turn does not depend on the bound,
/// once its root counts.
pub proof fn lemma_axes_bound(
    nodes: Seq<Node>,
    idx: Option<usize>,
    depth: int,
    n_dims: int,
    b1: int,
    b2: int,
)
    requires
        idx matches Some(i) ==> i < b1 && i < b2,
    ensures
        axes_in_turn(nodes, idx, depth, n_dims, b1) == axes_in_turn(nodes, idx, depth, n_dims, b2),
{
}

/// Nodes added behind the others leave the axes of the others as they are.
pub proof fn lemma_axes_frame(
    before: Seq<Node>,
    after: Seq<Node>,
    idx: Option<usize>,
    depth: int,
    n_dims: int,
    bound: int,
)
    requires
        before.len() <= after.len(),
        after.subrange(0, before.len() as int) == before,
        bound <= before.len(),
    ensures
        axes_in_turn(before, idx, depth, n_dims, bound) == axes_in_turn(
            after,
            idx,
            depth,
            n_dims,
            bound,
        ),
    decreases bound,
{
    match idx {
        None => {},
        Some(i) => {
            if i < bound {
                assert(after[i as int] == after.subrange(0, before.len() as int)[i as int]);
                lemma_axes_frame(before, after, before[i as int].left, depth + 1, n_dims, i as int);
                lemma_axes_frame(
                    before,
                    after,
                    before[i as int].right,
                    depth + 1,
                    n_dims,
                    i as int,
                );
            }
        },
    }
}

/// What a subtree holds that was built at depth `depth` from the rows
/// `indices`: nodes in order behind those that were there, with its root
/// last, the rows `indices` as its points, and the axes taken in turn.
#[verifier::opaque]
pub open spec fn built(
    before: Seq<Node>,
    after: Seq<Node>,
    cloud: Seq<Vec<i32>>,
    n_dims: int,
    indices: Seq<usize>,
    root: Option<usize>,
    depth: int,
) -> bool {
    &&& axes_in_turn(after, root, depth, n_dims, after.len() as int)
    &&& before.len() <= after.len()
    &&& after.subrange(0, before.len() as int) == before
    &&& nodes_ok(after, cloud, n_dims)
    &&& indices.len() == 0 ==> root.is_none() && after == before
    &&& indices.len() > 0 ==> root == Some((after.len() - 1) as usize) && after.len()
        > before.len()
    &&& forall|p: usize| subtree(after, root, after.len() as int).contains(p) <==> indices.contains(p)
}

/// Nothing is built from no rows.
proof fn lemma_built_nothing(
    nodes: Seq<Node>,
    cloud: Seq<Vec<i32>>,
    n_dims: int,
    indices: Seq<usize>,
    depth: int,
)
    requires
        nodes_ok(nodes, cloud, n_dims),
        indices.len() == 0,
    ensures
        built(nodes, nodes, cloud, n_dims, indices, None, depth),
{
    reveal(built);
    assert(nodes.subrange(0, nodes.len() as int) =~= nodes);
}

/// What was built is in order and stands behind what was there.
proof fn lemma_built_nodes(
    before: Seq<Node>,
    after: Seq<Node>,
    cloud: Seq<Vec<i32>>,
    n_dims: int,
    indices: Seq<usize>,
    root: Option<usize>,
    depth: int,
)
    requires
        built(before, after, cloud, n_dims, indices, root, depth),
    ensures
        axes_in_turn(after, root, depth, n_dims, after.len() as int),
        nodes_ok(after, cloud, n_dims),
        before.len() <= after.len(),
        root matches Some(r) ==> r < after.len(),
        forall|p: usize| subtree(after, root, after.len() as int).contains(p) <==> indices.contains(p),
{
    reveal(built);
}

/// The rows `sorted` are those of `indices`, in the order of their
/// coordinates along `axis`, each once.
pub open spec fn rows_sorted(
    cloud: Seq<Vec<i32>>,
    axis: int,
    indices: Seq<usize>,
    sorted: Seq<usize>,
) -> bool {
    &&& sorted.len() == indices.len()
    &&& sorted.no_duplicates()
    &&& forall|p: usize| sorted.contains(p) <==> indices.contains(p)
    &&& forall|k: int| 0 <= k < sorted.len() ==> (#[trigger] sorted[k]) < cloud.len()
    &&& forall|k: int, l: int|
        0 <= k <= l < sorted.len() ==> cloud[(#[trigger] sorted[k]) as int]@[axis] <= cloud[(
        #[trigger] sorted[l]) as int]@[axis]
}

/// The node at the median of the sorted rows, above the subtrees of the rows
/// before and behind the median, roots the subtree of all the rows.
proof fn lemma_build_step(
    cloud: Seq<Vec<i32>>,
    n_dims: int,
    nodes0: Seq<Node>,
    nodes1: Seq<Node>,
    nodes2: Seq<Node>,
    indices: Seq<usize>,
    sorted: Seq<usize>,
    median: int,
    split_axis: usize,
    left: Option<usize>,
    right: Option<usize>,
    depth: int,
)
    requires
        rows_sorted(cloud, split_axis as int, indices, sorted),
        0 <= median < sorted.len(),
        split_axis < n_dims,
        split_axis == depth % n_dims,
        nodes2.len() < usize::MAX,
        built(nodes0, nodes1, cloud, n_dims, sorted.subrange(0, median), left, depth + 1),
        built(
            nodes1,
            nodes2,
            cloud,
            n_dims,
            sorted.subrange(median + 1, sorted.len() as int),
            right,
            depth + 1,
        ),
    ensures
        built(
            nodes0,
            nodes2.push(Node { split_axis, point_index: sorted[median], left, right }),
            cloud,
            n_dims,
            indices,
            Some(nodes2.len() as usize),
            depth,
        ),
{
    reveal(built);
    lemma_build_step_axes(nodes1, nodes2, split_axis, sorted[median], left, right, depth, n_dims);
    let point_index = sorted[median];
    let left_inds = sorted.subrange(0, median);
    let right_inds = sorted.subrange(median + 1, sorted.len() as int);
    let nodes3 = nodes2.push(Node { split_axis, point_index, left, right });
    let me = nodes2.len() as int;
    let node_index = nodes2.len() as usize;
    assert(nodes3.subrange(0, me) =~= nodes2);
    assert(nodes3.subrange(0, nodes0.len() as int) =~= nodes0) by {
        assert(nodes2.subrange(0, nodes0.len() as int) =~= nodes1.subrange(
            0,
            nodes0.len() as int,
        ));
    }
    // the nodes that were there are as they were
    assert forall|i: int| 0 <= i < me implies node_ok(nodes3, cloud, n_dims, i) by {
        lemma_nodes_ok_frame(nodes2, nodes3, cloud, n_dims, i);
    }
    // the points of the two subtrees
    let lefts = subtree(nodes3, left, me);
    let rights = subtree(nodes3, right, me);
    lemma_subtree_frame(nodes2, nodes3, left, me);
    lemma_subtree_frame(nodes2, nodes3, right, me);
    lemma_subtree_bound(nodes2, left, me, nodes1.len() as int);
    lemma_subtree_frame(nodes1, nodes2, left, nodes1.len() as int);
    assert forall|p: usize| lefts.contains(p) <==> left_inds.contains(p) by {}
    assert forall|p: usize| rights.contains(p) <==> right_inds.contains(p) by {}
    assert forall|p: usize| left_inds.contains(p) implies p < cloud.len() && cloud[p as int]@[split_axis as int]
        <= cloud[point_index as int]@[split_axis as int] && p != point_index
        && !right_inds.contains(p) by {
        let k = choose|k: int| 0 <= k < left_inds.len() && left_inds[k] == p;
        assert(sorted[k] == p);
        if right_inds.contains(p) {
            let m = choose|m: int| 0 <= m < right_inds.len() && right_inds[m] == p;
            assert(sorted[median + 1 + m] == p);
        }
    }
    assert forall|p: usize| right_inds.contains(p) implies p < cloud.len() && cloud[p as int]@[split_axis as int]
        >= cloud[point_index as int]@[split_axis as int] && p != point_index by {
        let m = choose|m: int| 0 <= m < right_inds.len() && right_inds[m] == p;
        assert(sorted[median + 1 + m] == p);
    }
    assert(lefts.disjoint(rights)) by {
        assert forall|p: usize| !(lefts.contains(p) && rights.contains(p)) by {
            if lefts.contains(p) {
                assert(left_inds.contains(p));
            }
        }
    }
    assert(nodes3[me] == (Node { split_axis, point_index, left, right }));
    assert(node_ok(nodes3, cloud, n_dims, me));
    // the points of the new subtree are the rows that were given
    assert forall|p: usize|
        subtree(nodes3, Some(node_index), nodes3.len() as int).contains(p) <==> indices.contains(
            p,
        ) by {
        assert(subtree(nodes3, Some(node_index), nodes3.len() as int) == lefts.union(
            rights,
        ).insert(point_index));
        if sorted.contains(p) {
            let k = choose|k: int| 0 <= k < sorted.len() && sorted[k] == p;
            if k < median {
                assert(left_inds[k] == p);
            } else if k > median {
                assert(right_inds[k - median - 1] == p);
            }
        }
        if left_inds.contains(p) {
            let k = choose|k: int| 0 <= k < left_inds.len() && left_inds[k] == p;
            assert(sorted[k] == p);
        }
        if right_inds.contains(p) {
            let m = choose|m: int| 0 <= m < right_inds.len() && right_inds[m] == p;
            assert(sorted[median + 1 + m] == p);
        }
        assert(sorted.contains(point_index));
    }
}

/// The new node, with children that take the axes in turn from the next
/// depth on, takes them in turn from its own.
proof fn lemma_build_step_axes(
    nodes1: Seq<Node>,
    nodes2: Seq<Node>,
    split_axis: usize,
    point_index: usize,
    left: Option<usize>,
    right: Option<usize>,
    depth: int,
    n_dims: int,
)
    requires
        nodes1.len() <= nodes2.len(),
        nodes2.subrange(0, nodes1.len() as int) == nodes1,
        nodes2.len() < usize::MAX,
        split_axis == depth % n_dims,
        axes_in_turn(nodes1, left, depth + 1, n_dims, nodes1.len() as int),
        axes_in_turn(nodes2, right, depth + 1, n_dims, nodes2.len() as int),
    ensures
        axes_in_turn(
            nodes2.push(Node { split_axis, point_index, left, right }),
            Some(nodes2.len() as usize),
            depth,
            n_dims,
            (nodes2.len() + 1) as int,
        ),
{
    let nodes3 = nodes2.push(Node { split_axis, point_index, left, right });
    let me = nodes2.len() as int;
    assert(nodes3.subrange(0, me) =~= nodes2);
    assert(nodes3.subrange(0, nodes1.len() as int) =~= nodes1);
    assert(nodes3[me] == (Node { split_axis, point_index, left, right }));
    lemma_axes_frame(nodes1, nodes3, left, depth + 1, n_dims, nodes1.len() as int);
    lemma_axes_bound(nodes3, left, depth + 1, n_dims, nodes1.len() as int, me);
    lemma_axes_frame(nodes2, nodes3, right, depth + 1, n_dims, me);
}

/// A part of sorted rows is a sequence of rows of the cloud, each once.
proof fn lemma_part_rows(
    cloud: Seq<Vec<i32>>,
    axis: int,
    indices: Seq<usize>,
    sorted: Seq<usize>,
    lo: int,
    hi: int,
)
    requires
        rows_sorted(cloud, axis, indices, sorted),
        0 <= lo <= hi <= sorted.len(),
    ensures
        sorted.subrange(lo, hi).no_duplicates(),
        forall|k: int|
            0 <= k < hi - lo ==> (#[trigger] sorted.subrange(lo, hi)[k]) < cloud.len(),
{
    let part = sorted.subrange(lo, hi);
    assert forall|k: int| 0 <= k < hi - lo implies (#[trigger] part[k]) < cloud.len() by {
        assert(part[k] == sorted[lo + k]);
    }
    assert forall|a: int, b: int| 0 <= a < part.len() && 0 <= b < part.len() && a != b implies part[a]
        != part[b] by {
        assert(part[a] == sorted[lo + a]);
        assert(part[b] == sorted[lo + b]);
    }
}

/// Builds the subtree of the rows `indices`, which splits at the axis that
/// follows from `depth`, and returns the position of its root.
fn recursive_build(
    cloud: &Vec<Vec<i32>>,
    n_dims: usize,
    nodes: &mut Vec<Node>,
    indices: &Vec<usize>,
    depth: usize,
) -> (root: Option<usize>)
    requires
        cloud_ok(cloud@, n_dims as int),
        nodes_ok(old(nodes)@, cloud@, n_dims as int),
        indices@.no_duplicates(),
        indices@.len() <= cloud@.len(),
        forall|k: int| 0 <= k < indices@.len() ==> (#[trigger] indices@[k]) < cloud@.len(),
        depth + indices@.len() <= usize::MAX,
        old(nodes)@.len() + indices@.len() <= usize::MAX,
    ensures
        built(old(nodes)@, final(nodes)@, cloud@, n_dims as int, indices@, root, depth as int),
        final(nodes)@.len() == old(nodes)@.len() + indices@.len(),
    decreases indices@.len(),
{
    let ghost nodes0 = nodes@;
    if indices.len() == 0 {
        proof {
            lemma_built_nothing(nodes0, cloud@, n_dims as int, indices@, depth as int);
        }
        return None;
    }
    let split_axis: usize = depth % n_dims;
    // sort the indices associated with the points, no need to mutate the data
    let inds_sorted: Vec<usize> = sort_rows(cloud, n_dims, indices, split_axis);
    let median: usize = inds_sorted.len() / 2;
    let point_index: usize = inds_sorted[median];
    let left_inds: Vec<usize> = copy_rows(&inds_sorted, 0, median);
    let right_inds: Vec<usize> = copy_rows(&inds_sorted, median + 1, inds_sorted.len());
    proof {
        lemma_part_rows(cloud@, split_axis as int, indices@, inds_sorted@, 0, median as int);
        lemma_part_rows(
            cloud@,
            split_axis as int,
            indices@,
            inds_sorted@,
            median + 1,
            inds_sorted@.len() as int,
        );
    }
    // construct the left and right sub trees
    let left: Option<usize> = recursive_build(cloud, n_dims, nodes, &left_inds, depth + 1);
    let ghost nodes1 = nodes@;
    proof {
        lemma_built_nodes(nodes0, nodes1, cloud@, n_dims as int, left_inds@, left, depth + 1);
    }
    let right: Option<usize> = recursive_build(cloud, n_dims, nodes, &right_inds, depth + 1);
    let ghost nodes2 = nodes@;
    // create a new Node and return this Node's index
    let node_index: usize = nodes.len();
    nodes.push(Node::new(split_axis, point_index, left, right));
    proof {
        lemma_build_step(
            cloud@,
            n_dims as int,
            nodes0,
            nodes1,
            nodes2,
            indices@,
            inds_sorted@,
            median as int,
            split_axis,
            left,
            right,
            depth as int,
        );
    }
    Some(node_index)
}

impl KDTree {
    /// Creates a K-d tree over a cloud of points, each with `n_dims`
    /// coordinates, with one node for each point: at each node the points
    /// are split at their median along one axis, the axes taken in turn from
    /// the root down.
    pub fn build(cloud: Vec<Vec<i32>>, n_dims: usize) -> (tree: KDTree)
        requires
            cloud_ok(cloud@, n_dims as int),
        ensures
            tree.wf(),
            tree.cloud@ == cloud@,
            tree.n_dims == n_dims,
            tree.nodes@.len() == cloud@.len(),
            axes_in_turn(tree.nodes@, tree.root, 0, n_dims as int, tree.nodes@.len() as int),
    {
        let total_points: usize = cloud.len();
        let mut indices: Vec<usize> = Vec::with_capacity(total_points);
        let mut i: usize = 0;
        while i < total_points
            invariant
                i <= total_points,
                indices@.len() == i,
                forall|k: int| 0 <= k < i ==> #[trigger] indices@[k] == k,
            decreases total_points - i,
        {
            indices.push(i);
            i += 1;
        }
        let mut nodes: Vec<Node> = Vec::new();
        let ghost nodes0 = nodes@;
        proof {
            assert forall|a: int, b: int|
                0 <= a < indices@.len() && 0 <= b < indices@.len() && a != b implies indices@[a]
                != indices@[b] by {}
        }
        let root: Option<usize> = recursive_build(&cloud, n_dims, &mut nodes, &indices, 0);
        proof {
            lemma_built_nodes(nodes0, nodes@, cloud@, n_dims as int, indices@, root, 0);
            assert forall|p: usize|
                subtree(nodes@, root, nodes@.len() as int).contains(p) <==> p
                    < cloud@.len() by {
                assert(subtree(nodes@, root, nodes@.len() as int).contains(p)
                    <==> indices@.contains(p));
                if p < cloud@.len() {
                    assert(indices@[p as int] == p);
                }
            }
        }
        KDTree { cloud, n_dims, nodes, root }
    }
}

} // verus!
